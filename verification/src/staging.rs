//! Staging: line endings, the blob of a file, and the entries of the index.
use crate::hash::hash_object;
use crate::objects::{blob_bytes, index_view, IndexEntry, IndexEntryView};
use crate::paths::{normalize_separators, with_slashes};
use crate::text::{chars_to_string, names, string_chars};
use crate::tree::{stored_blob, StoredObject};
use vstd::prelude::*;

verus! {

/// `data` with every line ending turned into a line feed: a carriage return
/// with the line feed behind it becomes one line feed, and so does a carriage
/// return on its own.
pub open spec fn normalized(data: Seq<u8>) -> Seq<u8>
    decreases data.len(),
{
    if data.len() == 0 {
        Seq::empty()
    } else if data[0] == 13u8 && data.len() > 1 && data[1] == 10u8 {
        seq![10u8] + normalized(data.skip(2))
    } else if data[0] == 13u8 {
        seq![10u8] + normalized(data.skip(1))
    } else {
        seq![data[0]] + normalized(data.skip(1))
    }
}

/// Normalized bytes hold no carriage return and are no longer than the bytes
/// they come from.
pub proof fn lemma_normalized(data: Seq<u8>)
    ensures
        normalized(data).len() <= data.len(),
        forall|i: int| 0 <= i < normalized(data).len() ==> normalized(data)[i] != 13u8,
    decreases data.len(),
{
    if data.len() == 0 {
    } else if data[0] == 13u8 && data.len() > 1 && data[1] == 10u8 {
        lemma_normalized(data.skip(2));
    } else {
        lemma_normalized(data.skip(1));
    }
}

/// Bytes without a carriage return are left as they are.
pub proof fn lemma_normalized_same(data: Seq<u8>)
    requires
        forall|i: int| 0 <= i < data.len() ==> data[i] != 13u8,
    ensures
        normalized(data) == data,
    decreases data.len(),
{
    if data.len() > 0 {
        let rest = data.skip(1);
        assert forall|i: int| 0 <= i < rest.len() implies rest[i] != 13u8 by {
            assert(rest[i] == data[i + 1]);
        }
        lemma_normalized_same(rest);
        assert(seq![data[0]] + rest =~= data);
    }
}

/// `data` with a carriage return put in front of every line feed.
pub open spec fn with_crlf(data: Seq<u8>) -> Seq<u8>
    decreases data.len(),
{
    if data.len() == 0 {
        Seq::empty()
    } else if data[0] == 10u8 {
        seq![13u8, 10u8] + with_crlf(data.skip(1))
    } else {
        seq![data[0]] + with_crlf(data.skip(1))
    }
}

/// A text with line feeds and the same text with carriage returns before them
/// are the same once normalized, so they are stored under one digest.
pub proof fn law_line_endings(data: Seq<u8>)
    requires
        forall|i: int| 0 <= i < data.len() ==> data[i] != 13u8,
    ensures
        normalized(with_crlf(data)) == data,
        normalized(data) == data,
        stored_blob(normalized(with_crlf(data))) == stored_blob(normalized(data)),
    decreases data.len(),
{
    lemma_normalized_same(data);
    if data.len() > 0 {
        let rest = data.skip(1);
        assert forall|i: int| 0 <= i < rest.len() implies rest[i] != 13u8 by {
            assert(rest[i] == data[i + 1]);
        }
        law_line_endings(rest);
        let w = with_crlf(data);
        if data[0] == 10u8 {
            assert(w.skip(2) =~= with_crlf(rest));
        } else {
            assert(w.skip(1) =~= with_crlf(rest));
        }
        assert(seq![data[0]] + rest =~= data);
    }
}

/// `data` with every line ending turned into a line feed.
pub fn normalize_line_endings(data: &Vec<u8>) -> (r: Vec<u8>)
    ensures
        r@ == normalized(data@),
        forall|i: int| 0 <= i < r@.len() ==> r@[i] != 13u8,
{
    let mut r: Vec<u8> = Vec::new();
    let mut i: usize = 0;
    assert(data@.skip(0) =~= data@);
    while i < data.len()
        invariant
            i <= data.len(),
            normalized(data@) == r@ + normalized(data@.skip(i as int)),
        decreases data.len() - i,
    {
        let ghost rest = data@.skip(i as int);
        let ghost before = r@;
        assert(rest[0] == data@[i as int]);
        if data[i] == 13u8 && i + 1 < data.len() && data[i + 1] == 10u8 {
            assert(rest[1] == data@[i + 1]);
            assert(rest.skip(2) =~= data@.skip(i + 2));
            r.push(10u8);
            i += 2;
        } else if data[i] == 13u8 {
            if i + 1 < data.len() {
                assert(rest[1] == data@[i + 1]);
            }
            assert(rest.skip(1) =~= data@.skip(i + 1));
            r.push(10u8);
            i += 1;
        } else {
            assert(rest.skip(1) =~= data@.skip(i + 1));
            r.push(data[i]);
            i += 1;
        }
        assert(r@ + normalized(data@.skip(i as int)) =~= before + normalized(rest));
    }
    proof {
        assert(r@ + normalized(data@.skip(i as int)) =~= r@);
        lemma_normalized(data@);
    }
    r
}

/// The entries of `index` other than those for the path `p`, in their order.
pub open spec fn without_path(index: Seq<IndexEntryView>, p: Seq<char>) -> Seq<IndexEntryView>
    decreases index.len(),
{
    if index.len() == 0 {
        Seq::empty()
    } else if index.last().path == p {
        without_path(index.drop_last(), p)
    } else {
        without_path(index.drop_last(), p).push(index.last())
    }
}

/// Removing a path leaves no entry for it and adds none.
pub proof fn lemma_without_path(index: Seq<IndexEntryView>, p: Seq<char>)
    ensures
        without_path(index, p).len() <= index.len(),
        forall|i: int|
            0 <= i < without_path(index, p).len() ==> (#[trigger] without_path(index, p)[i]).path
                != p,
        without_path(index, p).len() == index.len() <==> (forall|i: int|
            0 <= i < index.len() ==> (#[trigger] index[i]).path != p),
    decreases index.len(),
{
    if index.len() > 0 {
        let init = index.drop_last();
        lemma_without_path(init, p);
        if index.last().path == p {
            assert(index[index.len() - 1].path == p);
        } else {
            if forall|i: int| 0 <= i < init.len() ==> (#[trigger] init[i]).path != p {
                assert forall|i: int| 0 <= i < index.len() implies (#[trigger] index[i]).path
                    != p by {
                    if i < init.len() {
                        assert(index[i] == init[i]);
                    }
                }
            } else {
                let i = choose|i: int| 0 <= i < init.len() && (#[trigger] init[i]).path == p;
                assert(index[i].path == p);
            }
        }
    }
}

/// A copy of the entries of `index` other than those for the path `p`.
fn keep_others(index: &Vec<IndexEntry>, p: &String) -> (r: Vec<IndexEntry>)
    ensures
        index_view(r@) == without_path(index_view(index@), p@),
{
    let ghost iv = index_view(index@);
    let mut r: Vec<IndexEntry> = Vec::new();
    let mut i: usize = 0;
    assert(index_view(r@) =~= without_path(iv.take(0), p@));
    while i < index.len()
        invariant
            i <= index.len(),
            iv == index_view(index@),
            index_view(r@) == without_path(iv.take(i as int), p@),
        decreases index.len() - i,
    {
        let ghost before = index_view(r@);
        let ghost part = iv.take(i + 1);
        assert(part.drop_last() =~= iv.take(i as int));
        assert(part.last() == iv[i as int]);
        let entry = &index[i];
        if !(entry.path == *p) {
            let copy = IndexEntry {
                path: entry.path.clone(),
                hash: entry.hash.clone(),
                size: entry.size,
                mode: entry.mode.clone(),
            };
            assert(copy@ == iv[i as int]);
            r.push(copy);
            assert(index_view(r@) =~= before.push(iv[i as int]));
        }
        i += 1;
    }
    assert(iv.take(i as int) =~= iv);
    r
}

/// Puts `entry` into the index: the index loses any entry it had for the path
/// of `entry`, and gains `entry` at its end.
pub fn stage_entry(index: &mut Vec<IndexEntry>, entry: IndexEntry)
    ensures
        index_view(final(index)@) == without_path(index_view(old(index)@), entry.path@).push(
            entry@,
        ),
{
    let mut kept = keep_others(index, &entry.path);
    let ghost before = index_view(kept@);
    let ghost ev = entry@;
    kept.push(entry);
    assert(index_view(kept@) =~= before.push(ev));
    *index = kept;
}

/// Whether no two entries of `index` have the same path.
pub open spec fn unique_paths(index: Seq<IndexEntryView>) -> bool {
    forall|i: int, j: int|
        0 <= i < j < index.len() ==> (#[trigger] index[i]).path != (#[trigger] index[j]).path
}

/// What is left of an index with one entry for each path has one entry for
/// each path.
pub proof fn lemma_without_path_unique(index: Seq<IndexEntryView>, p: Seq<char>)
    requires
        unique_paths(index),
    ensures
        unique_paths(without_path(index, p)),
        forall|k: int|
            0 <= k < without_path(index, p).len() ==> exists|i: int|
                0 <= i < index.len() && index[i] == #[trigger] without_path(index, p)[k],
    decreases index.len(),
{
    if index.len() > 0 {
        let init = index.drop_last();
        assert forall|i: int, j: int| 0 <= i < j < init.len() implies (#[trigger] init[i]).path
            != (#[trigger] init[j]).path by {
            assert(init[i] == index[i] && init[j] == index[j]);
        }
        lemma_without_path_unique(init, p);
        let w = without_path(index, p);
        let wi = without_path(init, p);
        assert forall|k: int| 0 <= k < w.len() implies exists|i: int|
            0 <= i < index.len() && index[i] == #[trigger] w[k] by {
            if k < wi.len() {
                let i = choose|i: int| 0 <= i < init.len() && init[i] == wi[k];
                assert(index[i] == w[k]);
            } else {
                assert(index[index.len() - 1] == w[k]);
            }
        }
        if index.last().path != p {
            assert forall|i: int, j: int| 0 <= i < j < w.len() implies (#[trigger] w[i]).path != (
            #[trigger] w[j]).path by {
                if j == w.len() - 1 {
                    let x = choose|x: int| 0 <= x < init.len() && init[x] == wi[i];
                    assert(index[x] == w[i]);
                    assert(index[index.len() - 1] == w[j]);
                } else {
                    assert(wi[i] == w[i] && wi[j] == w[j]);
                }
            }
        }
    }
}

/// Staging keeps the index free of repeated paths: an index with one entry for
/// each path has one entry for each path after an entry is put into it.
pub proof fn law_staging_keeps_paths_unique(index: Seq<IndexEntryView>, entry: IndexEntryView)
    requires
        unique_paths(index),
    ensures
        unique_paths(without_path(index, entry.path).push(entry)),
{
    lemma_without_path(index, entry.path);
    lemma_without_path_unique(index, entry.path);
    let w = without_path(index, entry.path);
    let all = w.push(entry);
    assert forall|i: int, j: int| 0 <= i < j < all.len() implies (#[trigger] all[i]).path != (
    #[trigger] all[j]).path by {
        if j == all.len() - 1 {
            assert(all[i] == w[i]);
        } else {
            assert(all[i] == w[i] && all[j] == w[j]);
        }
    }
}

/// A file that has been staged: its path in the index and the blob to store.
#[derive(Debug, Clone, PartialEq, Eq)]
pub struct Staged {
    pub path: String,
    pub blob: StoredObject,
}

/// The entry that staging the content `data` under `path` puts in the index.
pub open spec fn staged_entry(path: Seq<char>, data: Seq<u8>, mode: Seq<char>) -> IndexEntryView {
    IndexEntryView {
        path: path,
        hash: stored_blob(normalized(data)).hash,
        size: normalized(data).len(),
        mode: mode,
    }
}

/// Stages the file at `rel_path`, a path below the work tree, with the content
/// `data` and the mode `mode`.
///
/// The path is kept with slashes for backslashes. The content is stored with
/// normalized line endings, as a blob; the index loses any entry it had for the
/// path and gains one at its end, with the digest of the blob and the length of
/// the normalized content.
pub fn add_file(index: &mut Vec<IndexEntry>, rel_path: &str, data: &Vec<u8>, mode: &str) -> (r:
    Staged)
    ensures
        r.path@ == with_slashes(rel_path@),
        forall|i: int| 0 <= i < r.path@.len() ==> r.path@[i] != '\\',
        r.blob@ == stored_blob(normalized(data@)),
        index_view(final(index)@) == without_path(index_view(old(index)@), r.path@).push(
            staged_entry(r.path@, data@, mode@),
        ),
{
    let content = normalize_line_endings(data);
    let size: u64 = content.len() as u64;
    let bytes = blob_bytes(&content);
    let hash = hash_object(bytes.as_slice());
    let path = chars_to_string(&normalize_separators(&string_chars(rel_path)));
    let entry = IndexEntry {
        path: path.clone(),
        hash: hash.clone(),
        size,
        mode: chars_to_string(&string_chars(mode)),
    };
    assert(entry@ == staged_entry(path@, data@, mode@));
    stage_entry(index, entry);
    Staged { path, blob: StoredObject { hash, data: bytes } }
}

/// The index and the list of removed paths after unstaging `targets` one after
/// the other. A target that is `None` names nothing. A target is removed as a
/// path with slashes for backslashes, and is listed if the index held it then.
pub open spec fn unstaged(index: Seq<IndexEntryView>, targets: Seq<Option<Seq<char>>>) -> (
    Seq<IndexEntryView>,
    Seq<Seq<char>>,
)
    decreases targets.len(),
{
    if targets.len() == 0 {
        (index, Seq::empty())
    } else {
        match targets[0] {
            None => unstaged(index, targets.drop_first()),
            Some(t) => {
                let p = with_slashes(t);
                let kept = without_path(index, p);
                let later = unstaged(kept, targets.drop_first());
                if kept.len() < index.len() {
                    (later.0, seq![p] + later.1)
                } else {
                    later
                }
            },
        }
    }
}

/// Unstaging keeps the index free of repeated paths.
pub proof fn law_unstaging_keeps_paths_unique(
    index: Seq<IndexEntryView>,
    targets: Seq<Option<Seq<char>>>,
)
    requires
        unique_paths(index),
    ensures
        unique_paths(unstaged(index, targets).0),
    decreases targets.len(),
{
    if targets.len() > 0 {
        match targets[0] {
            None => {
                law_unstaging_keeps_paths_unique(index, targets.drop_first());
            },
            Some(t) => {
                lemma_without_path_unique(index, with_slashes(t));
                law_unstaging_keeps_paths_unique(
                    without_path(index, with_slashes(t)),
                    targets.drop_first(),
                );
            },
        }
    }
}

/// What a list of optional paths holds.
pub open spec fn target_views(paths: Seq<Option<String>>) -> Seq<Option<Seq<char>>> {
    Seq::new(
        paths.len(),
        |i: int|
            match paths[i] {
                Some(p) => Some(p@),
                None => None,
            },
    )
}

/// Takes paths out of the index. Without any path the whole index is emptied.
/// Else each path of `paths` that is not `None` is removed in turn, and the
/// result lists those that the index held, with slashes for backslashes.
pub fn reset(index: &mut Vec<IndexEntry>, paths: &Vec<Option<String>>) -> (removed: Vec<String>)
    ensures
        paths@.len() == 0 ==> final(index)@.len() == 0 && removed@.len() == 0,
        paths@.len() > 0 ==> index_view(final(index)@) == unstaged(
            index_view(old(index)@),
            target_views(paths@),
        ).0 && names(removed@) == unstaged(index_view(old(index)@), target_views(paths@)).1,
{
    let mut removed: Vec<String> = Vec::new();
    if paths.len() == 0 {
        *index = Vec::new();
        return removed;
    }
    let ghost start = index_view(index@);
    let ghost targets = target_views(paths@);
    let mut k: usize = 0;
    proof {
        assert(targets.skip(0) =~= targets);
        assert(names(removed@) + unstaged(start, targets).1 =~= unstaged(start, targets).1);
    }
    while k < paths.len()
        invariant
            k <= paths.len(),
            targets == target_views(paths@),
            unstaged(start, targets).0 == unstaged(index_view(index@), targets.skip(k as int)).0,
            unstaged(start, targets).1 == names(removed@) + unstaged(
                index_view(index@),
                targets.skip(k as int),
            ).1,
        decreases paths.len() - k,
    {
        let ghost rest = targets.skip(k as int);
        let ghost current = index_view(index@);
        let ghost listed = names(removed@);
        proof {
            assert(rest[0] == targets[k as int]);
            assert(rest.drop_first() =~= targets.skip(k + 1));
        }
        match &paths[k] {
            None => {},
            Some(t) => {
                let p = chars_to_string(&normalize_separators(&string_chars(t.as_str())));
                let kept = keep_others(index, &p);
                let shrank = kept.len() < index.len();
                *index = kept;
                if shrank {
                    removed.push(p);
                    proof {
                        let later = unstaged(index_view(index@), targets.skip(k + 1));
                        assert(names(removed@) =~= listed.push(with_slashes(t@)));
                        assert(names(removed@) + later.1 =~= listed + (seq![with_slashes(t@)]
                            + later.1));
                    }
                }
            },
        }
        k += 1;
    }
    proof {
        assert(targets.skip(k as int) =~= Seq::<Option<Seq<char>>>::empty());
        assert(names(removed@) + Seq::<Seq<char>>::empty() =~= names(removed@));
    }
    removed
}

/// What a path that was given to `add` turns out to be.
#[derive(Clone, Copy, Debug, PartialEq, Eq)]
pub enum PathKind {
    /// Nothing is there.
    Missing,
    /// A file.
    File,
    /// A directory.
    Directory,
    /// Something else.
    Other,
}

/// What `add` does with a path.
#[derive(Clone, Copy, Debug, PartialEq, Eq)]
pub enum AddAction {
    /// Give up: the path does not exist.
    Fail,
    /// Stage the file.
    Stage,
    /// Go through the directory, and stage each file in it that the ignore
    /// rules do not leave alone.
    Walk,
    /// Pass the path over.
    Skip,
}

/// What `add` does with a path of the kind `kind`; `ignored` says whether the
/// ignore rules leave the path alone, which counts for a file only.
pub open spec fn add_action(kind: PathKind, ignored: bool) -> AddAction {
    match kind {
        PathKind::Missing => AddAction::Fail,
        PathKind::File => if ignored {
            AddAction::Skip
        } else {
            AddAction::Stage
        },
        PathKind::Directory => AddAction::Walk,
        PathKind::Other => AddAction::Skip,
    }
}

/// Decides what to do with a path that was given to be staged: a missing path
/// is an error, a file is staged unless it is ignored, a directory is gone
/// through, and anything else is passed over.
pub fn add(kind: PathKind, ignored: bool) -> (r: AddAction)
    ensures
        r == add_action(kind, ignored),
{
    match kind {
        PathKind::Missing => AddAction::Fail,
        PathKind::File => if ignored {
            AddAction::Skip
        } else {
            AddAction::Stage
        },
        PathKind::Directory => AddAction::Walk,
        PathKind::Other => AddAction::Skip,
    }
}

/// The mode of a file as the index keeps it: the permission bits in octal, or
/// the mode of a regular file where the system has no such bits.
pub open spec fn mode_of(bits: Option<u32>) -> Seq<char> {
    match bits {
        Some(n) => crate::decimal::octal(n as nat),
        None => seq!['1', '0', '0', '6', '4', '4'],
    }
}

/// The mode of a file as the index keeps it.
pub fn mode_text(bits: Option<u32>) -> (r: String)
    ensures
        r@ == mode_of(bits),
{
    match bits {
        Some(n) => chars_to_string(&crate::decimal::format_octal(n)),
        None => {
            let regular = vec!['1', '0', '0', '6', '4', '4'];
            assert(regular@ =~= seq!['1', '0', '0', '6', '4', '4']);
            chars_to_string(&regular)
        },
    }
}

} // verus!
