//! History: making a commit, walking back through the commits, and showing
//! an object.
use crate::error::{ObjectError, RepoError};
use crate::hash::{hash_object, object_digest};
use crate::objects::{
    all_hashes_hex, commit_bytes, commit_tag, commit_text, framed, index_view, tree_view, Commit,
    CommitView, GitObject, IndexEntry, IndexEntryView, ObjectView, TreeEntryView,
};
use crate::scan::{lines_of, split_lines};
use crate::text::{
    append_chars, chars_in_bytes, chars_to_string, count_chars_in_bytes, names, string_chars,
    sub_chars,
};
use crate::hash::is_hex;
use crate::paths::segments;
use crate::tree::{
    bad_below, built_dirs, built_level, create_tree_from_index, dir_names, file_entry, files_at,
    is_below, is_file_at, is_file_entry, lemma_built_dirs_digests, lemma_files_at, stored_tree,
    stored_views, StoredObject, StoredView,
};
use crate::tree_laws::{
    is_stored, law_written_in_order, lemma_in_order_own, lemma_in_order_shift, tree_in_order,
};
use chrono::DateTime;
use vstd::prelude::*;
use vstd::utf8::{decode_utf8, valid_utf8};

verus! {

/// The date and time of the second `secs` after the start of 1970, in
/// universal time and in the form `2024-01-31 23:59:59`, as the `chrono` crate
/// writes it; `None` for a second that `chrono` has no date for.
pub uninterp spec fn utc_date_text(secs: int) -> Option<Seq<char>>;

/// The text of `bytes` with a replacement character wherever they are not
/// well-formed UTF-8, as `String::from_utf8_lossy` gives it.
pub uninterp spec fn lossy_text(bytes: Seq<u8>) -> Seq<char>;

/// Calls `chrono::DateTime::from_timestamp` with no nanoseconds, then `format`
/// with `%Y-%m-%d %H:%M:%S`. The result depends on `secs` alone.
#[verifier::external_body]
fn format_date(secs: i64) -> (r: Option<String>)
    ensures
        match r {
            Some(text) => utc_date_text(secs as int) == Some(text@),
            None => utc_date_text(secs as int) is None,
        },
{
    match DateTime::from_timestamp(secs, 0) {
        Some(date) => Some(date.format("%Y-%m-%d %H:%M:%S").to_string()),
        None => None,
    }
}

/// Calls `String::from_utf8_lossy`. The result depends on the bytes alone, and
/// is the text that they encode where they are well-formed UTF-8.
#[verifier::external_body]
fn decode_lossy(bytes: &[u8]) -> (r: String)
    ensures
        r@ == lossy_text(bytes@),
        valid_utf8(bytes@) ==> r@ == decode_utf8(bytes@),
{
    String::from_utf8_lossy(bytes).into_owned()
}

/// What a commit needs besides the index: the commit before it, who makes it,
/// why and when.
#[derive(Debug, Clone, PartialEq, Eq)]
pub struct CommitInfo {
    pub parent: Option<String>,
    pub author_name: String,
    pub author_email: String,
    pub message: String,
    pub timestamp: i64,
}

/// A commit that is ready to be stored: the objects to write, in this order,
/// the digest of the commit, and the line that reports it.
#[derive(Debug, Clone, PartialEq, Eq)]
pub struct CommitPlan {
    pub objects: Vec<StoredObject>,
    pub commit_hash: String,
    pub summary: String,
}

/// What an optional string holds.
pub open spec fn opt_view(o: Option<String>) -> Option<Seq<char>> {
    match o {
        Some(s) => Some(s@),
        None => None,
    }
}

/// The author of a commit: the name, then the address in angle brackets.
pub open spec fn author_text(name: Seq<char>, email: Seq<char>) -> Seq<char> {
    name + seq![' ', '<'] + email + seq!['>']
}

/// The commit that `info` describes on top of the tree with the digest `tree`.
pub open spec fn commit_of(tree: Seq<char>, info: CommitInfo) -> CommitView {
    CommitView {
        tree: tree,
        parent: opt_view(info.parent),
        author: author_text(info.author_name@, info.author_email@),
        message: info.message@,
        timestamp: info.timestamp as int,
    }
}

/// The stored form of a commit.
pub open spec fn stored_commit(c: CommitView) -> StoredView {
    let data = framed(commit_tag(), vstd::utf8::encode_utf8(commit_text(c)));
    StoredView { hash: object_digest(data), data: data }
}

/// The line that reports a commit: the first eight digits of its digest and
/// the message.
pub open spec fn summary_text(hash: Seq<char>, message: Seq<char>) -> Seq<char> {
    seq!['C', 'o', 'm', 'm', 'i', 't', 't', 'e', 'd', ' '] + hash.take(8) + seq![':', ' ']
        + message
}

/// Whether the trees of `index` cannot be stored: an entry with a path of one
/// segment or more has a digest that is not hexadecimal.
pub open spec fn cannot_store(index: Seq<IndexEntryView>) -> bool {
    exists|i: int|
        0 <= i < index.len() && segments((#[trigger] index[i]).path).len() >= 1 && !is_hex(
            index[i].hash,
        )
}

/// The trees of an index cannot be stored exactly if a tree below the root
/// cannot be built or the root tree cannot be encoded.
pub proof fn lemma_cannot_store(index: Seq<IndexEntryView>)
    ensures
        cannot_store(index) <==> (bad_below(index, Seq::empty()) || !all_hashes_hex(
            built_level(index, Seq::empty()).entries,
        )),
{
    let root = Seq::<Seq<char>>::empty();
    let level = built_level(index, root);
    let files = files_at(index, root);
    lemma_files_at(index, root);
    lemma_built_dirs_digests(index, root, dir_names(index, root));
    if cannot_store(index) {
        let i = choose|i: int|
            0 <= i < index.len() && segments((#[trigger] index[i]).path).len() >= 1 && !is_hex(
                index[i].hash,
            );
        let s = segments(index[i].path);
        assert(root =~= s.subrange(0, 0));
        if s.len() >= 2 {
            assert(is_below(index[i], root));
        } else {
            assert(is_file_at(index[i], root));
            assert(files.contains(file_entry(index[i], root)));
            let k = choose|k: int| 0 <= k < files.len() && files[k] == file_entry(index[i], root);
            assert(level.entries[k] == files[k]);
            assert(!is_hex(level.entries[k].hash));
        }
    }
    if bad_below(index, root) {
        let i = choose|i: int|
            0 <= i < index.len() && is_below(#[trigger] index[i], root) && !is_hex(index[i].hash);
        assert(segments(index[i].path).len() >= 1);
    }
    if !all_hashes_hex(level.entries) {
        let k = choose|k: int| 0 <= k < level.entries.len() && !is_hex(
            #[trigger] level.entries[k].hash,
        );
        if k >= files.len() {
            let dirs = built_dirs(index, root, dir_names(index, root));
            assert(level.entries[k] == dirs.entries[k - files.len()]);
        }
        assert(level.entries[k] == files[k]);
        assert(is_file_entry(index, root, files[k]));
        let i = choose|i: int|
            0 <= i < index.len() && is_file_at(#[trigger] index[i], root) && files[k]
                == file_entry(index[i], root);
        assert(segments(index[i].path).len() >= 1);
    }
}

/// Prepares the commit of what is staged.
///
/// With nothing staged there is nothing to commit. Else the trees are built
/// from the index, and the plan holds the objects to store in the order in
/// which they must be written: the trees of the directories, each after the
/// trees it refers to, then the root tree, then the commit that refers to it.
/// The history pointer is to be moved, and the index emptied, only after all
/// of them are written.
pub fn commit(index: &Vec<IndexEntry>, info: &CommitInfo) -> (r: Result<CommitPlan, RepoError>)
    ensures
        index@.len() == 0 ==> r == Err::<CommitPlan, RepoError>(RepoError::NothingToCommit),
        index@.len() > 0 && cannot_store(index_view(index@)) ==> r == Err::<
            CommitPlan,
            RepoError,
        >(RepoError::Object(ObjectError::InvalidHash)),
        index@.len() > 0 && !cannot_store(index_view(index@)) ==> (r matches Ok(plan) && ({
            let level = built_level(index_view(index@), Seq::empty());
            let root = stored_tree(level.entries);
            let made = stored_commit(commit_of(root.hash, *info));
            &&& stored_views(plan.objects@) == level.written.push(root).push(made)
            &&& plan.commit_hash@ == made.hash
            &&& plan.summary@ == summary_text(made.hash, info.message@)
        })),
{
    if index.len() == 0 {
        return Err(RepoError::NothingToCommit);
    }
    proof {
        lemma_cannot_store(index_view(index@));
    }
    let mut objects: Vec<StoredObject> = Vec::new();
    assert(stored_views(objects@) =~= Seq::<StoredView>::empty());
    let entries = match create_tree_from_index(index, &mut objects) {
        Ok(entries) => entries,
        Err(e) => {
            return Err(RepoError::Object(e));
        },
    };
    let ghost level = built_level(index_view(index@), Seq::empty());
    assert(stored_views(objects@) =~= level.written);
    let tree = GitObject::Tree(entries);
    let tree_bytes = match tree.serialize() {
        Ok(bytes) => bytes,
        Err(e) => {
            return Err(RepoError::Object(e));
        },
    };
    let tree_hash = hash_object(tree_bytes.as_slice());
    let ghost written = stored_views(objects@);
    objects.push(StoredObject { hash: tree_hash.clone(), data: tree_bytes });
    let ghost root = stored_tree(level.entries);
    assert(stored_views(objects@) =~= written.push(root));
    let mut author = string_chars(info.author_name.as_str());
    author.push(' ');
    author.push('<');
    append_chars(&mut author, &string_chars(info.author_email.as_str()));
    author.push('>');
    assert(author@ =~= author_text(info.author_name@, info.author_email@));
    let made = Commit {
        tree: tree_hash,
        parent: match &info.parent {
            Some(p) => Some(p.clone()),
            None => None,
        },
        author: chars_to_string(&author),
        message: info.message.clone(),
        timestamp: info.timestamp,
    };
    assert(made@ == commit_of(root.hash, *info));
    let made_bytes = commit_bytes(&made);
    let commit_hash = hash_object(made_bytes.as_slice());
    let ghost with_root = stored_views(objects@);
    objects.push(StoredObject { hash: commit_hash.clone(), data: made_bytes });
    assert(stored_views(objects@) =~= with_root.push(
        stored_commit(commit_of(root.hash, *info)),
    ));
    let digits = string_chars(commit_hash.as_str());
    let mut summary = vec!['C', 'o', 'm', 'm', 'i', 't', 't', 'e', 'd', ' '];
    append_chars(&mut summary, &sub_chars(&digits, 0, 8));
    summary.push(':');
    summary.push(' ');
    append_chars(&mut summary, &string_chars(info.message.as_str()));
    assert(summary@ =~= summary_text(commit_hash@, info.message@));
    Ok(CommitPlan { objects, commit_hash, summary: chars_to_string(&summary) })
}

/// The objects of a commit are in the order in which they can be written: each
/// tree stands behind the trees of its directories, the root tree last of the
/// trees, and the commit behind the root tree that it refers to.
pub proof fn law_commit_in_order(index: Seq<IndexEntryView>, info: CommitInfo)
    ensures
        ({
            let level = built_level(index, Seq::empty());
            let root = stored_tree(level.entries);
            let made = commit_of(root.hash, info);
            let objects = level.written.push(root).push(stored_commit(made));
            &&& forall|j: int| 0 <= j < objects.len() - 1 ==> tree_in_order(index, objects, j)
            &&& is_stored(objects, objects.len() - 1, made.tree)
        }),
{
    let level = built_level(index, Seq::empty());
    let root = stored_tree(level.entries);
    let made = commit_of(root.hash, info);
    let last = seq![stored_commit(made)];
    let objects = level.written.push(root).push(stored_commit(made));
    assert(objects =~= level.written + seq![root] + last);
    law_written_in_order(index, Seq::empty());
    assert forall|j: int| 0 <= j < objects.len() - 1 implies tree_in_order(index, objects, j) by {
        if j < level.written.len() {
            lemma_in_order_shift(index, level.written, j, Seq::empty(), seq![root] + last);
            assert(Seq::<StoredView>::empty() + level.written + (seq![root] + last) =~= objects);
        } else {
            lemma_in_order_own(index, Seq::empty(), last);
        }
    }
    assert(objects[level.written.len() as int] == root);
}

/// A walk back through the history: the digest of the commit to show next, how
/// many have been shown, and how many may be shown at most.
#[derive(Debug, Clone, PartialEq, Eq)]
pub struct LogWalk {
    pub next: Option<String>,
    pub count: usize,
    pub limit: usize,
}

/// One commit as the log shows it.
#[derive(Debug, Clone, PartialEq, Eq)]
pub enum LogEntry {
    /// The short form: the first eight bytes of the digest and the first line
    /// of the message.
    OneLine { short_hash: String, first_line: String },
    /// The long form: the digest, the author, the date, and the lines of the
    /// message.
    Full { hash: String, author: String, date: String, message: Vec<String> },
}

/// What a `LogEntry` holds.
pub enum LogEntryView {
    OneLine { short_hash: Seq<char>, first_line: Seq<char> },
    Full { hash: Seq<char>, author: Seq<char>, date: Seq<char>, message: Seq<Seq<char>> },
}

impl View for LogEntry {
    type V = LogEntryView;

    open spec fn view(&self) -> LogEntryView {
        match self {
            LogEntry::OneLine { short_hash, first_line } => LogEntryView::OneLine {
                short_hash: short_hash@,
                first_line: first_line@,
            },
            LogEntry::Full { hash, author, date, message } => LogEntryView::Full {
                hash: hash@,
                author: author@,
                date: date@,
                message: names(message@),
            },
        }
    }
}

/// The first line of `message`, or the empty text if it has no line.
pub open spec fn first_line_of(message: Seq<char>) -> Seq<char> {
    if lines_of(message).len() > 0 {
        lines_of(message)[0]
    } else {
        Seq::empty()
    }
}

/// The first `n` bytes of the UTF-8 form of `s`, as text.
pub open spec fn byte_prefix(s: Seq<char>, n: int) -> Seq<char> {
    match chars_in_bytes(s, n) {
        Some(k) => s.take(k),
        None => Seq::empty(),
    }
}

/// The entry that shows the commit `c` with the digest `hash`, the long form
/// with the date `date`; there is no long form without a date.
pub open spec fn entry_with(
    hash: Seq<char>,
    c: CommitView,
    oneline: bool,
    date: Option<Seq<char>>,
) -> Option<LogEntryView> {
    if oneline {
        Some(
            LogEntryView::OneLine {
                short_hash: byte_prefix(hash, 8),
                first_line: first_line_of(c.message),
            },
        )
    } else {
        match date {
            Some(date) => Some(
                LogEntryView::Full {
                    hash: hash,
                    author: c.author,
                    date: date,
                    message: lines_of(c.message),
                },
            ),
            None => None,
        }
    }
}

/// The entry that shows the commit `c` with the digest `hash`, the long form
/// with the date of the commit's time.
pub open spec fn entry_of(hash: Seq<char>, c: CommitView, oneline: bool) -> Option<LogEntryView> {
    entry_with(hash, c, oneline, utc_date_text(c.timestamp))
}

/// Starts the walk at the last commit, to show `number` commits at most, or all
/// of them without a number.
pub fn log_start(head: Option<String>, number: Option<usize>) -> (r: LogWalk)
    ensures
        r.next == head,
        r.count == 0,
        r.limit == (match number {
            Some(n) => n,
            None => usize::MAX,
        }),
{
    LogWalk {
        next: head,
        count: 0,
        limit: match number {
            Some(n) => n,
            None => usize::MAX,
        },
    }
}

impl LogWalk {
    /// The digest of the commit to read next; `None` once the first commit has
    /// been shown or as many as were asked for.
    pub fn next_hash(&self) -> (r: Option<String>)
        ensures
            opt_view(r) == (if self.count < self.limit {
                opt_view(self.next)
            } else {
                None
            }),
    {
        if self.count < self.limit {
            match &self.next {
                Some(hash) => Some(hash.clone()),
                None => None,
            }
        } else {
            None
        }
    }
}

/// Takes in the object read for `next_hash`, and gives the entry to show; the
/// long form shows `date` as the date of the commit, and `None` says that its
/// time is no date.
///
/// A commit is shown, and the walk goes on to its parent. Any other object
/// ends the walk, with nothing to show. In the long form a commit without a
/// date is an error, and the walk stays where it is. A walk that is over shows
/// nothing and stays as it is. The short form cuts the digest after eight bytes,
/// which must be whole characters.
pub fn log_with_date(
    walk: &mut LogWalk,
    object: &GitObject,
    oneline: bool,
    date: Option<String>,
) -> (r: Result<Option<LogEntry>, RepoError>)
    requires
        oneline && old(walk).next is Some && old(walk).count < old(walk).limit
            && object is Commit ==> chars_in_bytes(old(walk).next->0@, 8) is Some,
    ensures
        old(walk).next is None || old(walk).count >= old(walk).limit ==> r == Ok::<
            Option<LogEntry>,
            RepoError,
        >(None) && *final(walk) == *old(walk),
        old(walk).next is Some && old(walk).count < old(walk).limit ==> match object@ {
            ObjectView::Commit(c) => match entry_with(
                old(walk).next->0@,
                c,
                oneline,
                opt_view(date),
            ) {
                Some(entry) => r matches Ok(Some(shown)) && shown@ == entry && opt_view(
                    final(walk).next,
                ) == c.parent && final(walk).count == old(walk).count + 1,
                None => r == Err::<Option<LogEntry>, RepoError>(RepoError::InvalidDate)
                    && *final(walk) == *old(walk),
            },
            _ => r matches Ok(None) && final(walk).next is None && final(walk).count == old(
                walk,
            ).count,
        },
        final(walk).limit == old(walk).limit,
{
    if walk.count >= walk.limit {
        return Ok(None);
    }
    let hash = match &walk.next {
        Some(hash) => hash.clone(),
        None => {
            return Ok(None);
        },
    };
    let commit = match object {
        GitObject::Commit(c) => c,
        _ => {
            walk.next = None;
            return Ok(None);
        },
    };
    let lines = split_lines(&string_chars(commit.message.as_str()));
    let entry = if oneline {
        let digits = string_chars(hash.as_str());
        let k = match count_chars_in_bytes(&digits, 8) {
            Some(k) => k,
            None => 0,
        };
        let short = sub_chars(&digits, 0, k);
        assert(short@ =~= byte_prefix(hash@, 8));
        let first_line = if lines.len() > 0 {
            chars_to_string(&lines[0])
        } else {
            String::new()
        };
        LogEntry::OneLine { short_hash: chars_to_string(&short), first_line }
    } else {
        let date = match date {
            Some(date) => date,
            None => {
                return Err(RepoError::InvalidDate);
            },
        };
        let mut message: Vec<String> = Vec::new();
        let mut i: usize = 0;
        while i < lines.len()
            invariant
                i <= lines.len(),
                lines@.len() == lines_of(commit.message@).len(),
                forall|j: int|
                    0 <= j < lines@.len() ==> (#[trigger] lines@[j])@ == lines_of(
                        commit.message@,
                    )[j],
                names(message@) == lines_of(commit.message@).take(i as int),
            decreases lines.len() - i,
        {
            let ghost before = names(message@);
            message.push(chars_to_string(&lines[i]));
            assert(names(message@) =~= before.push(lines_of(commit.message@)[i as int]));
            assert(lines_of(commit.message@).take(i + 1) =~= lines_of(commit.message@).take(
                i as int,
            ).push(lines_of(commit.message@)[i as int]));
            i += 1;
        }
        assert(lines_of(commit.message@).take(i as int) =~= lines_of(commit.message@));
        LogEntry::Full { hash, author: commit.author.clone(), date, message }
    };
    walk.next = match &commit.parent {
        Some(p) => Some(p.clone()),
        None => None,
    };
    walk.count = walk.count + 1;
    Ok(Some(entry))
}

/// Takes in the object read for `next_hash`, and gives the entry to show, as
/// `log_with_date` does with the date of the commit's time in universal time.
pub fn log(walk: &mut LogWalk, object: &GitObject, oneline: bool) -> (r: Result<
    Option<LogEntry>,
    RepoError,
>)
    requires
        oneline && old(walk).next is Some && old(walk).count < old(walk).limit
            && object is Commit ==> chars_in_bytes(old(walk).next->0@, 8) is Some,
    ensures
        old(walk).next is None || old(walk).count >= old(walk).limit ==> r == Ok::<
            Option<LogEntry>,
            RepoError,
        >(None) && *final(walk) == *old(walk),
        old(walk).next is Some && old(walk).count < old(walk).limit ==> match object@ {
            ObjectView::Commit(c) => match entry_of(old(walk).next->0@, c, oneline) {
                Some(entry) => r matches Ok(Some(shown)) && shown@ == entry && opt_view(
                    final(walk).next,
                ) == c.parent && final(walk).count == old(walk).count + 1,
                None => r == Err::<Option<LogEntry>, RepoError>(RepoError::InvalidDate)
                    && *final(walk) == *old(walk),
            },
            _ => r matches Ok(None) && final(walk).next is None && final(walk).count == old(
                walk,
            ).count,
        },
        final(walk).limit == old(walk).limit,
{
    let date = match object {
        GitObject::Commit(c) => if oneline {
            None
        } else {
            format_date(c.timestamp)
        },
        _ => None,
    };
    log_with_date(walk, object, oneline, date)
}

/// One tree entry as it is shown: mode, digest and name on a line.
pub open spec fn entry_line(e: TreeEntryView) -> Seq<char> {
    e.mode + seq![' '] + e.hash + seq![' '] + e.name + seq!['\n']
}

/// The entries of a tree as they are shown, a line each.
pub open spec fn tree_listing(entries: Seq<TreeEntryView>) -> Seq<char>
    decreases entries.len(),
{
    if entries.len() == 0 {
        Seq::empty()
    } else {
        tree_listing(entries.drop_last()) + entry_line(entries.last())
    }
}

/// An object as it is shown: a blob as its text, a tree as its listing, a
/// commit as its text with a line feed after the message.
pub open spec fn shown(o: ObjectView) -> Seq<char> {
    match o {
        ObjectView::Blob(data) => lossy_text(data),
        ObjectView::Tree(entries) => tree_listing(entries),
        ObjectView::Commit(c) => commit_text(c).push('\n'),
    }
}

/// The text that shows `object`.
pub fn cat_file(object: &GitObject) -> (r: String)
    ensures
        r@ == shown(object@),
        object@ matches ObjectView::Blob(data) ==> (valid_utf8(data) ==> r@ == decode_utf8(data)),
{
    match object {
        GitObject::Blob(data) => decode_lossy(data.as_slice()),
        GitObject::Tree(entries) => {
            let ghost views = tree_view(entries@);
            let mut out: Vec<char> = Vec::new();
            let mut i: usize = 0;
            assert(out@ =~= tree_listing(views.take(0)));
            while i < entries.len()
                invariant
                    i <= entries.len(),
                    views == tree_view(entries@),
                    out@ == tree_listing(views.take(i as int)),
                decreases entries.len() - i,
            {
                let ghost part = views.take(i + 1);
                assert(part.drop_last() =~= views.take(i as int));
                assert(part.last() == views[i as int]);
                let e = &entries[i];
                append_chars(&mut out, &string_chars(e.mode.as_str()));
                out.push(' ');
                append_chars(&mut out, &string_chars(e.hash.as_str()));
                out.push(' ');
                append_chars(&mut out, &string_chars(e.name.as_str()));
                out.push('\n');
                assert(out@ =~= tree_listing(part));
                i += 1;
            }
            assert(views.take(i as int) =~= views);
            chars_to_string(&out)
        },
        GitObject::Commit(c) => {
            let mut out = crate::objects::commit_chars(c);
            out.push('\n');
            chars_to_string(&out)
        },
    }
}

} // verus!
