//! The status engine: what has changed between the work tree, the index and the
//! tree of the last commit.
use crate::objects::{blob_digest, hash_blob, IndexEntry};
use crate::order::{insert_sorted, strictly_sorted, texts};
use crate::table::{last_value, lemma_last_value_some, lookup, pairs};
use crate::text::{chars_to_string, copy_chars, names, same_chars, string_chars, text_view};
use vstd::prelude::*;

verus! {

/// The lists of a status report.
#[derive(Clone, Copy, Debug, PartialEq, Eq)]
pub enum Category {
    /// Staged, and not in the last commit.
    StagedNew,
    /// Staged with a content other than that of the last commit.
    StagedModified,
    /// Staged and in the last commit, but gone from the work tree.
    StagedDeleted,
    /// Changed in the work tree since it was staged or, if it is not staged,
    /// since the last commit.
    Modified,
    /// In the last commit, not staged, and gone from the work tree.
    Deleted,
    /// In the work tree only.
    Untracked,
}

/// The paths that differ, one list for each category, each in the order of `str`
/// and without repetition.
#[derive(Debug, Clone, PartialEq, Eq)]
pub struct StatusReport {
    pub staged_new: Vec<String>,
    pub staged_modified: Vec<String>,
    pub staged_deleted: Vec<String>,
    pub modified: Vec<String>,
    pub deleted: Vec<String>,
    pub untracked: Vec<String>,
}

impl StatusReport {
    /// The list of one category.
    pub open spec fn list(self, cat: Category) -> Seq<String> {
        match cat {
            Category::StagedNew => self.staged_new@,
            Category::StagedModified => self.staged_modified@,
            Category::StagedDeleted => self.staged_deleted@,
            Category::Modified => self.modified@,
            Category::Deleted => self.deleted@,
            Category::Untracked => self.untracked@,
        }
    }

    /// Whether anything is staged for the next commit.
    pub fn has_staged(&self) -> (r: bool)
        ensures
            r == (self.staged_new@.len() > 0 || self.staged_modified@.len() > 0
                || self.staged_deleted@.len() > 0),
    {
        self.staged_new.len() > 0 || self.staged_modified.len() > 0 || self.staged_deleted.len()
            > 0
    }

    /// Whether every list is empty: nothing to commit, and a clean work tree.
    pub fn is_clean(&self) -> (r: bool)
        ensures
            r == (forall|cat: Category| (#[trigger] self.list(cat)).len() == 0),
    {
        let r = self.staged_new.len() == 0 && self.staged_modified.len() == 0
            && self.staged_deleted.len() == 0 && self.modified.len() == 0 && self.deleted.len()
            == 0 && self.untracked.len() == 0;
        proof {
            if !r {
                assert(self.list(Category::StagedNew).len() > 0 || self.list(
                    Category::StagedModified,
                ).len() > 0 || self.list(Category::StagedDeleted).len() > 0 || self.list(
                    Category::Modified,
                ).len() > 0 || self.list(Category::Deleted).len() > 0 || self.list(
                    Category::Untracked,
                ).len() > 0);
            }
        }
        r
    }
}

/// What is known of one path: the digest of its content in the work tree, the
/// digest staged for it, and the digest it has in the last commit; each only if
/// the path is there.
pub struct PathState {
    pub working: Option<Seq<char>>,
    pub index: Option<Seq<char>>,
    pub head: Option<Seq<char>>,
}

/// Whether a path in the state `s` belongs on the list of `cat`.
pub open spec fn in_category(cat: Category, s: PathState) -> bool {
    match cat {
        Category::StagedNew => s.working is Some && s.index is Some && s.head is None,
        Category::StagedModified => s.working is Some && s.index is Some && s.head is Some
            && s.index != s.head,
        Category::StagedDeleted => s.working is None && s.index is Some && s.head is Some,
        Category::Modified => s.working is Some && ((s.index is Some && s.working != s.index) || (
        s.index is None && s.head is Some && s.working != s.head)),
        Category::Deleted => s.working is None && s.index is None && s.head is Some,
        Category::Untracked => s.working is Some && s.index is None && s.head is None,
    }
}

/// Whether the path is in the work tree, in the index or in the last commit.
pub open spec fn is_known(s: PathState) -> bool {
    s.working is Some || s.index is Some || s.head is Some
}

/// Whether a path in the state `s` is left out of every list: its content is
/// that of the last commit and nothing else is staged for it, or it was staged
/// as new and then removed from the work tree, which counts as untouched.
pub open spec fn is_clean(s: PathState) -> bool {
    ||| s.working is Some && s.index is Some && s.head is Some && s.working == s.index && s.index
        == s.head
    ||| s.working is Some && s.index is None && s.head is Some && s.working == s.head
    ||| s.working is None && s.index is Some && s.head is None
}

/// Every known path is clean or on a list, and never both. It is on one list
/// only, but for one case: a path that is staged, as new or as modified, and has
/// changed again in the work tree is on the list of its staged category and on
/// that of the modified paths.
pub proof fn law_total_classification(s: PathState)
    requires
        is_known(s),
    ensures
        is_clean(s) <==> (forall|cat: Category| !in_category(cat, s)),
        forall|a: Category, b: Category|
            a != b && in_category(a, s) && in_category(b, s) ==> ((a == Category::Modified && (b
                == Category::StagedNew || b == Category::StagedModified)) || (b
                == Category::Modified && (a == Category::StagedNew || a
                == Category::StagedModified))),
{
    if !is_clean(s) {
        assert(in_category(Category::StagedNew, s) || in_category(Category::StagedModified, s)
            || in_category(Category::StagedDeleted, s) || in_category(Category::Modified, s)
            || in_category(Category::Deleted, s) || in_category(Category::Untracked, s));
    }
}

/// The work tree as pairs of a path and the digest of the blob of its content.
pub open spec fn working_pairs(working: Seq<(String, Vec<u8>)>) -> Seq<(Seq<char>, Seq<char>)> {
    Seq::new(working.len(), |i: int| (working[i].0@, blob_digest(working[i].1@)))
}

/// The index as pairs of a path and the digest staged for it.
pub open spec fn index_pairs(index: Seq<IndexEntry>) -> Seq<(Seq<char>, Seq<char>)> {
    Seq::new(index.len(), |i: int| (index[i].path@, index[i].hash@))
}

/// What a list of paths with their digests holds.
pub open spec fn digest_pairs(list: Seq<(String, String)>) -> Seq<(Seq<char>, Seq<char>)> {
    Seq::new(list.len(), |i: int| (list[i].0@, list[i].1@))
}

/// The state of the path `p`, from the digests of the files of the work tree,
/// the index, and the digests of the files of the last commit. Where a path
/// occurs more than once in a list, its last occurrence counts.
pub open spec fn state_from(
    working: Seq<(Seq<char>, Seq<char>)>,
    index: Seq<IndexEntry>,
    head: Seq<(String, String)>,
    p: Seq<char>,
) -> PathState {
    PathState {
        working: last_value(working, p),
        index: last_value(index_pairs(index), p),
        head: last_value(digest_pairs(head), p),
    }
}

/// The state of the path `p`, a file of the work tree counting by the digest
/// of the blob of its content.
pub open spec fn state_of(
    working: Seq<(String, Vec<u8>)>,
    index: Seq<IndexEntry>,
    head: Seq<(String, String)>,
    p: Seq<char>,
) -> PathState {
    state_from(working_pairs(working), index, head, p)
}

/// The state of one path, as found in the three tables.
struct Found {
    working: Option<Vec<char>>,
    index: Option<Vec<char>>,
    head: Option<Vec<char>>,
}

impl Found {
    spec fn view(&self) -> PathState {
        PathState {
            working: text_view(self.working),
            index: text_view(self.index),
            head: text_view(self.head),
        }
    }
}

/// Whether two optional digests are the same.
fn same_digest(a: &Option<Vec<char>>, b: &Option<Vec<char>>) -> (r: bool)
    ensures
        r == (text_view(*a) == text_view(*b)),
{
    match (a, b) {
        (Some(x), Some(y)) => same_chars(x, y),
        (None, None) => true,
        _ => false,
    }
}

/// Whether a path in the state `f` belongs on the list of `cat`.
fn belongs(cat: Category, f: &Found) -> (r: bool)
    ensures
        r == in_category(cat, f@),
{
    let w = f.working.is_some();
    let i = f.index.is_some();
    let h = f.head.is_some();
    match cat {
        Category::StagedNew => w && i && !h,
        Category::StagedModified => w && i && h && !same_digest(&f.index, &f.head),
        Category::StagedDeleted => !w && i && h,
        Category::Modified => w && ((i && !same_digest(&f.working, &f.index)) || (!i && h
            && !same_digest(&f.working, &f.head))),
        Category::Deleted => !w && !i && h,
        Category::Untracked => w && !i && !h,
    }
}

/// The files of the work tree, each with the digest of the blob of its content.
fn working_digests(working: &Vec<(String, Vec<u8>)>) -> (t: Vec<(String, String)>)
    ensures
        digest_pairs(t@) == working_pairs(working@),
{
    let mut t: Vec<(String, String)> = Vec::new();
    let mut i: usize = 0;
    while i < working.len()
        invariant
            i <= working.len(),
            digest_pairs(t@) == working_pairs(working@).take(i as int),
        decreases working.len() - i,
    {
        let ghost before = digest_pairs(t@);
        t.push((working[i].0.clone(), hash_blob(&working[i].1)));
        assert(digest_pairs(t@) =~= before.push(working_pairs(working@)[i as int]));
        assert(working_pairs(working@).take(i + 1) =~= working_pairs(working@).take(i as int).push(
            working_pairs(working@)[i as int],
        ));
        i += 1;
    }
    assert(working_pairs(working@).take(i as int) =~= working_pairs(working@));
    t
}

/// The index as a table.
fn index_table(index: &Vec<IndexEntry>) -> (t: Vec<(Vec<char>, Vec<char>)>)
    ensures
        pairs(t@) == index_pairs(index@),
{
    let mut t: Vec<(Vec<char>, Vec<char>)> = Vec::new();
    let mut i: usize = 0;
    while i < index.len()
        invariant
            i <= index.len(),
            pairs(t@) == index_pairs(index@).take(i as int),
        decreases index.len() - i,
    {
        let ghost before = pairs(t@);
        let path = string_chars(index[i].path.as_str());
        let value = string_chars(index[i].hash.as_str());
        t.push((path, value));
        assert(pairs(t@) =~= before.push(index_pairs(index@)[i as int]));
        assert(index_pairs(index@).take(i + 1) =~= index_pairs(index@).take(i as int).push(
            index_pairs(index@)[i as int],
        ));
        i += 1;
    }
    assert(index_pairs(index@).take(i as int) =~= index_pairs(index@));
    t
}

/// A list of paths with their digests as a table.
fn digest_table(head: &Vec<(String, String)>) -> (t: Vec<(Vec<char>, Vec<char>)>)
    ensures
        pairs(t@) == digest_pairs(head@),
{
    let mut t: Vec<(Vec<char>, Vec<char>)> = Vec::new();
    let mut i: usize = 0;
    while i < head.len()
        invariant
            i <= head.len(),
            pairs(t@) == digest_pairs(head@).take(i as int),
        decreases head.len() - i,
    {
        let ghost before = pairs(t@);
        let path = string_chars(head[i].0.as_str());
        let value = string_chars(head[i].1.as_str());
        t.push((path, value));
        assert(pairs(t@) =~= before.push(digest_pairs(head@)[i as int]));
        assert(digest_pairs(head@).take(i + 1) =~= digest_pairs(head@).take(i as int).push(
            digest_pairs(head@)[i as int],
        ));
        i += 1;
    }
    assert(digest_pairs(head@).take(i as int) =~= digest_pairs(head@));
    t
}

/// The state of the table `t` at `key`: a copy of the value found, if any.
fn value_at(t: &Vec<(Vec<char>, Vec<char>)>, key: &Vec<char>) -> (r: Option<Vec<char>>)
    ensures
        text_view(r) == last_value(pairs(t@), key@),
{
    match lookup(t, key) {
        Some(i) => Some(copy_chars(&t[i].1)),
        None => None,
    }
}

/// Adds the keys of `t` to `out`, each with its state in the three tables.
fn add_states(
    t: &Vec<(Vec<char>, Vec<char>)>,
    w: &Vec<(Vec<char>, Vec<char>)>,
    i: &Vec<(Vec<char>, Vec<char>)>,
    h: &Vec<(Vec<char>, Vec<char>)>,
    out: &mut Vec<(Vec<char>, Found)>,
)
    requires
        states_match(old(out)@, pairs(w@), pairs(i@), pairs(h@)),
    ensures
        states_match(final(out)@, pairs(w@), pairs(i@), pairs(h@)),
        forall|k: int| 0 <= k < old(out)@.len() ==> final(out)@[k] == old(out)@[k],
        final(out)@.len() == old(out)@.len() + t@.len(),
        forall|k: int|
            0 <= k < t@.len() ==> (#[trigger] final(out)@[old(out)@.len() + k]).0@ == t@[k].0@,
{
    let mut k: usize = 0;
    while k < t.len()
        invariant
            k <= t.len(),
            states_match(out@, pairs(w@), pairs(i@), pairs(h@)),
            out@.len() == old(out)@.len() + k,
            forall|j: int| 0 <= j < old(out)@.len() ==> out@[j] == old(out)@[j],
            forall|j: int| 0 <= j < k ==> (#[trigger] out@[old(out)@.len() + j]).0@ == t@[j].0@,
        decreases t.len() - k,
    {
        let key = copy_chars(&t[k].0);
        let found = Found {
            working: value_at(w, &key),
            index: value_at(i, &key),
            head: value_at(h, &key),
        };
        out.push((key, found));
        k += 1;
    }
}

/// Whether each path of `list` stands with its state in the three tables.
spec fn states_match(
    list: Seq<(Vec<char>, Found)>,
    w: Seq<(Seq<char>, Seq<char>)>,
    i: Seq<(Seq<char>, Seq<char>)>,
    h: Seq<(Seq<char>, Seq<char>)>,
) -> bool {
    forall|k: int|
        0 <= k < list.len() ==> (#[trigger] list[k]).1@ == (PathState {
            working: last_value(w, list[k].0@),
            index: last_value(i, list[k].0@),
            head: last_value(h, list[k].0@),
        })
}

/// The paths of `known` that belong on the list of `cat`, in order and without
/// repetition.
fn select(cat: Category, known: &Vec<(Vec<char>, Found)>) -> (r: Vec<String>)
    ensures
        strictly_sorted(names(r@)),
        forall|p: Seq<char>|
            names(r@).contains(p) <==> exists|k: int|
                0 <= k < known@.len() && (#[trigger] known@[k]).0@ == p && in_category(
                    cat,
                    known@[k].1@,
                ),
{
    let mut list: Vec<Vec<char>> = Vec::new();
    let mut k: usize = 0;
    while k < known.len()
        invariant
            k <= known.len(),
            strictly_sorted(texts(list@)),
            forall|p: Seq<char>|
                texts(list@).contains(p) <==> exists|j: int|
                    0 <= j < k && (#[trigger] known@[j]).0@ == p && in_category(cat, known@[j].1@),
        decreases known.len() - k,
    {
        let ghost before = texts(list@);
        if belongs(cat, &known[k].1) {
            insert_sorted(&mut list, copy_chars(&known[k].0));
        }
        proof {
            let after = texts(list@);
            assert forall|p: Seq<char>| after.contains(p) <==> exists|j: int|
                0 <= j < k + 1 && (#[trigger] known@[j]).0@ == p && in_category(
                    cat,
                    known@[j].1@,
                ) by {
                if after.contains(p) {
                    if before.contains(p) {
                        let j = choose|j: int|
                            0 <= j < k && (#[trigger] known@[j]).0@ == p && in_category(
                                cat,
                                known@[j].1@,
                            );
                        assert(0 <= j < k + 1);
                    } else {
                        assert(known@[k as int].0@ == p);
                    }
                }
                if exists|j: int|
                    0 <= j < k + 1 && (#[trigger] known@[j]).0@ == p && in_category(
                        cat,
                        known@[j].1@,
                    ) {
                    let j = choose|j: int|
                        0 <= j < k + 1 && (#[trigger] known@[j]).0@ == p && in_category(
                            cat,
                            known@[j].1@,
                        );
                    if j < k {
                        assert(before.contains(p));
                    }
                }
            }
        }
        k += 1;
    }
    let mut r: Vec<String> = Vec::new();
    let mut n: usize = 0;
    while n < list.len()
        invariant
            n <= list.len(),
            names(r@) == texts(list@).take(n as int),
        decreases list.len() - n,
    {
        let ghost before = names(r@);
        r.push(chars_to_string(&list[n]));
        assert(names(r@) =~= before.push(texts(list@)[n as int]));
        assert(texts(list@).take(n + 1) =~= texts(list@).take(n as int).push(
            texts(list@)[n as int],
        ));
        n += 1;
    }
    assert(texts(list@).take(n as int) =~= texts(list@));
    r
}

/// Compares the files of the work tree, each given with the digest of its
/// content, with the index and the files of the last commit.
///
/// Each list of the report holds exactly the paths that `in_category` puts
/// there, in the order of `str` and once each; a path that belongs on no list is
/// left out.
pub fn classify(
    working: &Vec<(String, String)>,
    index: &Vec<IndexEntry>,
    head: &Vec<(String, String)>,
) -> (r: StatusReport)
    ensures
        forall|cat: Category| strictly_sorted(#[trigger] names(r.list(cat))),
        forall|cat: Category, p: Seq<char>|
            #[trigger] names(r.list(cat)).contains(p) <==> in_category(
                cat,
                state_from(digest_pairs(working@), index@, head@, p),
            ),
{
    let w = digest_table(working);
    let i = index_table(index);
    let h = digest_table(head);
    let mut known: Vec<(Vec<char>, Found)> = Vec::new();
    add_states(&w, &w, &i, &h, &mut known);
    let ghost known1 = known@;
    add_states(&i, &w, &i, &h, &mut known);
    let ghost known2 = known@;
    add_states(&h, &w, &i, &h, &mut known);
    let r = StatusReport {
        staged_new: select(Category::StagedNew, &known),
        staged_modified: select(Category::StagedModified, &known),
        staged_deleted: select(Category::StagedDeleted, &known),
        modified: select(Category::Modified, &known),
        deleted: select(Category::Deleted, &known),
        untracked: select(Category::Untracked, &known),
    };
    proof {
        let wp = pairs(w@);
        let ip = pairs(i@);
        let hp = pairs(h@);
        assert forall|cat: Category, p: Seq<char>| #[trigger]
            names(r.list(cat)).contains(p) <==> in_category(
                cat,
                state_from(digest_pairs(working@), index@, head@, p),
            ) by {
            let s = state_from(digest_pairs(working@), index@, head@, p);
            if names(r.list(cat)).contains(p) {
                let k = choose|k: int|
                    0 <= k < known@.len() && (#[trigger] known@[k]).0@ == p && in_category(
                        cat,
                        known@[k].1@,
                    );
                assert(known@[k].1@ == s);
            }
            if in_category(cat, s) {
                lemma_last_value_some(wp, p);
                lemma_last_value_some(ip, p);
                lemma_last_value_some(hp, p);
                let k: int = if s.working is Some {
                    let j = choose|j: int| 0 <= j < wp.len() && (#[trigger] wp[j]).0 == p;
                    assert(known1[0 + j].0@ == w@[j].0@);
                    assert(known2[j] == known1[j]);
                    assert(known@[j] == known2[j]);
                    j
                } else if s.index is Some {
                    let j = choose|j: int| 0 <= j < ip.len() && (#[trigger] ip[j]).0 == p;
                    assert(known2[known1.len() + j].0@ == i@[j].0@);
                    assert(known@[known1.len() + j] == known2[known1.len() + j]);
                    w@.len() + j
                } else {
                    let j = choose|j: int| 0 <= j < hp.len() && (#[trigger] hp[j]).0 == p;
                    assert(known@[known2.len() + j].0@ == h@[j].0@);
                    w@.len() + i@.len() + j
                };
                assert(0 <= k < known@.len());
                assert(known@[k].0@ == p);
                assert(known@[k].1@ == s);
            }
        }
    }
    r
}

/// Compares the work tree, the index and the files of the last commit.
///
/// `working` holds each file of the work tree with its content, `head` each file
/// of the last commit with its digest. A file of the work tree is compared by the
/// digest that its content would be stored under as a blob; from there on the
/// report is that of `classify`.
pub fn status(
    working: &Vec<(String, Vec<u8>)>,
    index: &Vec<IndexEntry>,
    head: &Vec<(String, String)>,
) -> (r: StatusReport)
    ensures
        forall|cat: Category| strictly_sorted(#[trigger] names(r.list(cat))),
        forall|cat: Category, p: Seq<char>|
            #[trigger] names(r.list(cat)).contains(p) <==> in_category(
                cat,
                state_of(working@, index@, head@, p),
            ),
{
    let digests = working_digests(working);
    classify(&digests, index, head)
}

} // verus!
