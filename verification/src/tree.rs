//! The tree builder: from the flat list of staged paths to the nested trees
//! that a commit stores.
use crate::error::ObjectError;
use crate::hash::{hash_object, is_hex, object_digest};
use crate::objects::{
    all_hashes_hex, framed, index_view, tree_bytes, tree_tag, tree_view, GitObject, IndexEntry,
    IndexEntryView, ObjectView, TreeEntry, TreeEntryView,
};
use crate::order::{insert_sorted, lemma_sorted_unique, strictly_sorted, texts};
use crate::paths::{segments, split_path};
use crate::text::{chars_to_string, copy_chars, same_chars, string_chars};
use vstd::prelude::*;

verus! {

/// An object as it is stored: its digest and its canonical bytes.
#[derive(Debug, Clone, PartialEq, Eq)]
pub struct StoredObject {
    pub hash: String,
    pub data: Vec<u8>,
}

/// What a `StoredObject` holds.
pub struct StoredView {
    pub hash: Seq<char>,
    pub data: Seq<u8>,
}

impl View for StoredObject {
    type V = StoredView;

    open spec fn view(&self) -> StoredView {
        StoredView { hash: self.hash@, data: self.data@ }
    }
}

/// What a list of stored objects holds.
pub open spec fn stored_views(list: Seq<StoredObject>) -> Seq<StoredView> {
    Seq::new(list.len(), |i: int| list[i]@)
}

/// The mode of an entry that is a directory.
pub open spec fn dir_mode() -> Seq<char> {
    seq!['4', '0', '0', '0', '0']
}

/// The greatest number of segments that a path of the index has.
pub open spec fn max_depth(index: Seq<IndexEntryView>) -> nat
    decreases index.len(),
{
    if index.len() == 0 {
        0
    } else {
        let d = segments(index.last().path).len();
        let m = max_depth(index.drop_last());
        if d > m {
            d
        } else {
            m
        }
    }
}

/// Whether `e` is a file of the directory `base`: its path is one segment longer.
pub open spec fn is_file_at(e: IndexEntryView, base: Seq<Seq<char>>) -> bool {
    let s = segments(e.path);
    s.len() == base.len() + 1 && base.is_prefix_of(s)
}

/// Whether `e` lies in a directory below `base`: its path is two segments longer
/// or more.
pub open spec fn is_below(e: IndexEntryView, base: Seq<Seq<char>>) -> bool {
    let s = segments(e.path);
    s.len() >= base.len() + 2 && base.is_prefix_of(s)
}

/// The tree entry of a file of the directory `base`: the last segment of its
/// path, with the mode and the digest that the index holds for it.
pub open spec fn file_entry(e: IndexEntryView, base: Seq<Seq<char>>) -> TreeEntryView {
    TreeEntryView { mode: e.mode, name: segments(e.path)[base.len() as int], hash: e.hash }
}

/// The entries of the files of the directory `base`, in the order of the index.
pub open spec fn files_at(index: Seq<IndexEntryView>, base: Seq<Seq<char>>) -> Seq<
    TreeEntryView,
>
    decreases index.len(),
{
    if index.len() == 0 {
        Seq::empty()
    } else if is_file_at(index.last(), base) {
        files_at(index.drop_last(), base).push(file_entry(index.last(), base))
    } else {
        files_at(index.drop_last(), base)
    }
}

/// Whether `d` is a directory of the directory `base`: some path of the index
/// goes on below `base` with the segment `d`.
pub open spec fn is_dir_name(
    index: Seq<IndexEntryView>,
    base: Seq<Seq<char>>,
    d: Seq<char>,
) -> bool {
    exists|i: int|
        0 <= i < index.len() && is_below(#[trigger] index[i], base) && segments(
            index[i].path,
        )[base.len() as int] == d
}

/// Whether `names` holds the directories of the directory `base`, each once and
/// in the order of `str`.
pub open spec fn lists_dirs(
    index: Seq<IndexEntryView>,
    base: Seq<Seq<char>>,
    names: Seq<Seq<char>>,
) -> bool {
    strictly_sorted(names) && forall|d: Seq<char>|
        names.contains(d) <==> is_dir_name(index, base, d)
}

/// The directories of the directory `base`, each once and in the order of `str`.
pub open spec fn dir_names(index: Seq<IndexEntryView>, base: Seq<Seq<char>>) -> Seq<Seq<char>> {
    choose|names: Seq<Seq<char>>| lists_dirs(index, base, names)
}

/// The stored form of a tree with the entries `entries`.
pub open spec fn stored_tree(entries: Seq<TreeEntryView>) -> StoredView {
    let data = framed(tree_tag(), tree_bytes(entries));
    StoredView { hash: object_digest(data), data: data }
}

/// The entry of a directory.
pub open spec fn dir_entry(name: Seq<char>, hash: Seq<char>) -> TreeEntryView {
    TreeEntryView { mode: dir_mode(), name: name, hash: hash }
}

/// What building one level gives: the entries of that level, and the trees that
/// were stored on the way, each tree after the trees it refers to.
pub struct Built {
    pub entries: Seq<TreeEntryView>,
    pub written: Seq<StoredView>,
}

/// The level of the directory `base`: first its files in the order of the index,
/// then its directories in the order of `str`, each with the digest of its own
/// level stored as a tree.
pub open spec fn built_level(index: Seq<IndexEntryView>, base: Seq<Seq<char>>) -> Built
    decreases max_depth(index) - base.len(), 1int, 0int,
{
    let dirs = built_dirs(index, base, dir_names(index, base));
    Built { entries: files_at(index, base) + dirs.entries, written: dirs.written }
}

/// The entries of the directories `names` of the directory `base`, and the trees
/// stored for them: for each directory the trees below it, then its own.
pub open spec fn built_dirs(
    index: Seq<IndexEntryView>,
    base: Seq<Seq<char>>,
    names: Seq<Seq<char>>,
) -> Built
    decreases max_depth(index) - base.len(), 0int, names.len(),
{
    if names.len() == 0 || base.len() >= max_depth(index) {
        Built { entries: Seq::empty(), written: Seq::empty() }
    } else {
        let first = built_level(index, base.push(names[0]));
        let stored = stored_tree(first.entries);
        let rest = built_dirs(index, base, names.drop_first());
        Built {
            entries: seq![dir_entry(names[0], stored.hash)] + rest.entries,
            written: first.written + seq![stored] + rest.written,
        }
    }
}

/// Whether an entry below `base` has a digest that is not hexadecimal, so that the
/// tree it belongs to cannot be encoded.
pub open spec fn bad_below(index: Seq<IndexEntryView>, base: Seq<Seq<char>>) -> bool {
    exists|i: int|
        0 <= i < index.len() && is_below(#[trigger] index[i], base) && !is_hex(index[i].hash)
}

/// No path of the index has more segments than `max_depth`.
pub proof fn lemma_max_depth(index: Seq<IndexEntryView>, i: int)
    requires
        0 <= i < index.len(),
    ensures
        segments(index[i].path).len() <= max_depth(index),
    decreases index.len(),
{
    if i < index.len() - 1 {
        lemma_max_depth(index.drop_last(), i);
    }
}

/// A list of the directories of `base` is the list `dir_names`.
pub proof fn lemma_dir_names(
    index: Seq<IndexEntryView>,
    base: Seq<Seq<char>>,
    names: Seq<Seq<char>>,
)
    requires
        lists_dirs(index, base, names),
    ensures
        dir_names(index, base) == names,
{
    lemma_sorted_unique(dir_names(index, base), names);
}

/// Whether `t` is the entry of an index entry that is a file of `base`.
pub open spec fn is_file_entry(
    index: Seq<IndexEntryView>,
    base: Seq<Seq<char>>,
    t: TreeEntryView,
) -> bool {
    exists|i: int|
        0 <= i < index.len() && is_file_at(#[trigger] index[i], base) && t == file_entry(
            index[i],
            base,
        )
}

/// The entries of the files of a level are the entries of index entries that
/// are files of that level, and every such index entry has its entry there.
pub proof fn lemma_files_at(index: Seq<IndexEntryView>, base: Seq<Seq<char>>)
    ensures
        forall|k: int|
            0 <= k < files_at(index, base).len() ==> is_file_entry(
                index,
                base,
                #[trigger] files_at(index, base)[k],
            ),
        forall|i: int|
            0 <= i < index.len() && is_file_at(#[trigger] index[i], base) ==> files_at(
                index,
                base,
            ).contains(file_entry(index[i], base)),
    decreases index.len(),
{
    if index.len() > 0 {
        let init = index.drop_last();
        let fa = files_at(index, base);
        let fi = files_at(init, base);
        lemma_files_at(init, base);
        assert forall|k: int| 0 <= k < fa.len() implies is_file_entry(
            index,
            base,
            #[trigger] fa[k],
        ) by {
            if k < fi.len() {
                assert(is_file_entry(init, base, fi[k]));
                let i = choose|i: int|
                    0 <= i < init.len() && is_file_at(#[trigger] init[i], base) && fi[k]
                        == file_entry(init[i], base);
                assert(index[i] == init[i]);
            } else {
                assert(fa[k] == file_entry(index[index.len() - 1], base));
            }
        }
        assert forall|i: int|
            0 <= i < index.len() && is_file_at(#[trigger] index[i], base) implies fa.contains(
            file_entry(index[i], base),
        ) by {
            if i < init.len() {
                assert(index[i] == init[i]);
                assert(fi.contains(file_entry(init[i], base)));
                let k = choose|k: int| 0 <= k < fi.len() && fi[k] == file_entry(init[i], base);
                assert(fa[k] == fi[k]);
            } else {
                assert(fa[fa.len() - 1] == file_entry(index[i], base));
            }
        }
    }
}

/// The entries of directories carry digests.
pub proof fn lemma_built_dirs_digests(
    index: Seq<IndexEntryView>,
    base: Seq<Seq<char>>,
    names: Seq<Seq<char>>,
)
    ensures
        forall|k: int|
            0 <= k < built_dirs(index, base, names).entries.len() ==> is_hex(
                (#[trigger] built_dirs(index, base, names).entries[k]).hash,
            ),
    decreases names.len(),
{
    if names.len() == 0 || base.len() >= max_depth(index) {
    } else {
        lemma_built_dirs_digests(index, base, names.drop_first());
        let first = built_level(index, base.push(names[0]));
        let stored = stored_tree(first.entries);
        let rest = built_dirs(index, base, names.drop_first());
        let all = built_dirs(index, base, names).entries;
        crate::hash::lemma_hex_text(crate::hash::sha1_digest(stored.data));
        assert(is_hex(stored.hash));
        assert forall|k: int| 0 <= k < all.len() implies is_hex((#[trigger] all[k]).hash) by {
            if k > 0 {
                assert(all[k] == rest.entries[k - 1]);
            }
        }
    }
}

/// Whether `segs` holds the segments of the path of each index entry.
pub open spec fn segs_match(segs: Seq<Vec<Vec<char>>>, index: Seq<IndexEntry>) -> bool {
    segs.len() == index.len() && forall|i: int|
        0 <= i < index.len() ==> texts((#[trigger] segs[i])@) == segments(index[i].path@)
}

/// The segments of the path of each index entry.
fn split_all(index: &Vec<IndexEntry>) -> (segs: Vec<Vec<Vec<char>>>)
    ensures
        segs_match(segs@, index@),
{
    let mut segs: Vec<Vec<Vec<char>>> = Vec::new();
    let mut i: usize = 0;
    while i < index.len()
        invariant
            i <= index.len(),
            segs@.len() == i,
            forall|j: int|
                0 <= j < i ==> texts((#[trigger] segs@[j])@) == segments(index@[j].path@),
        decreases index.len() - i,
    {
        segs.push(split_path(&string_chars(index[i].path.as_str())));
        i += 1;
    }
    segs
}

/// Whether the segments `seg` begin with the segments `base`.
fn has_prefix(seg: &Vec<Vec<char>>, base: &Vec<Vec<char>>) -> (r: bool)
    ensures
        r == texts(base@).is_prefix_of(texts(seg@)),
{
    if base.len() > seg.len() {
        return false;
    }
    let mut i: usize = 0;
    while i < base.len()
        invariant
            i <= base.len() <= seg.len(),
            forall|j: int| 0 <= j < i ==> texts(seg@)[j] == texts(base@)[j],
        decreases base.len() - i,
    {
        if !same_chars(&seg[i], &base[i]) {
            assert(texts(seg@)[i as int] != texts(base@)[i as int]);
            assert(texts(seg@).subrange(0, base@.len() as int)[i as int] == texts(seg@)[i as int]);
            return false;
        }
        i += 1;
    }
    assert(texts(base@) =~= texts(seg@).subrange(0, base@.len() as int));
    true
}

/// The entries of the files of the directory `base`.
fn level_files(index: &Vec<IndexEntry>, segs: &Vec<Vec<Vec<char>>>, base: &Vec<Vec<char>>) -> (r:
    Vec<TreeEntry>)
    requires
        segs_match(segs@, index@),
    ensures
        tree_view(r@) == files_at(index_view(index@), texts(base@)),
{
    let ghost iv = index_view(index@);
    let ghost b = texts(base@);
    let mut r: Vec<TreeEntry> = Vec::new();
    let mut i: usize = 0;
    assert(tree_view(r@) =~= files_at(iv.take(0), b));
    while i < index.len()
        invariant
            i <= index.len(),
            segs_match(segs@, index@),
            iv == index_view(index@),
            b == texts(base@),
            tree_view(r@) == files_at(iv.take(i as int), b),
        decreases index.len() - i,
    {
        let ghost before = tree_view(r@);
        let ghost part = iv.take(i + 1);
        assert(part.drop_last() =~= iv.take(i as int));
        assert(part.last() == iv[i as int]);
        assert(texts(segs@[i as int]@) == segments(iv[i as int].path));
        if segs[i].len() > base.len() && segs[i].len() - base.len() == 1 && has_prefix(
            &segs[i],
            base,
        ) {
            let entry = TreeEntry {
                mode: index[i].mode.clone(),
                name: chars_to_string(&segs[i][base.len()]),
                hash: index[i].hash.clone(),
            };
            assert(entry@ == file_entry(iv[i as int], b)) by {
                let seg = segs@[i as int]@;
                assert(texts(seg)[base@.len() as int] == seg[base@.len() as int]@);
            }
            r.push(entry);
            assert(tree_view(r@) =~= before.push(entry@));
        }
        i += 1;
    }
    assert(iv.take(i as int) =~= iv);
    r
}

/// The directories of the directory `base`.
fn level_dirs(index: &Vec<IndexEntry>, segs: &Vec<Vec<Vec<char>>>, base: &Vec<Vec<char>>) -> (r:
    Vec<Vec<char>>)
    requires
        segs_match(segs@, index@),
    ensures
        texts(r@) == dir_names(index_view(index@), texts(base@)),
        lists_dirs(index_view(index@), texts(base@), texts(r@)),
{
    let ghost iv = index_view(index@);
    let ghost b = texts(base@);
    let mut r: Vec<Vec<char>> = Vec::new();
    let mut i: usize = 0;
    while i < index.len()
        invariant
            i <= index.len(),
            segs_match(segs@, index@),
            iv == index_view(index@),
            b == texts(base@),
            strictly_sorted(texts(r@)),
            forall|d: Seq<char>| texts(r@).contains(d) <==> is_dir_name(iv.take(i as int), b, d),
        decreases index.len() - i,
    {
        let ghost before = texts(r@);
        let ghost part = iv.take(i as int);
        let ghost next = iv.take(i + 1);
        assert(texts(segs@[i as int]@) == segments(iv[i as int].path));
        let below = segs[i].len() > base.len() && segs[i].len() - base.len() >= 2 && has_prefix(
            &segs[i],
            base,
        );
        if below {
            let name = copy_chars(&segs[i][base.len()]);
            assert(name@ == segments(iv[i as int].path)[b.len() as int]) by {
                let seg = segs@[i as int]@;
                assert(texts(seg)[base@.len() as int] == seg[base@.len() as int]@);
            }
            insert_sorted(&mut r, name);
        }
        proof {
            let after = texts(r@);
            assert forall|d: Seq<char>| after.contains(d) <==> is_dir_name(next, b, d) by {
                if is_dir_name(next, b, d) {
                    let j = choose|j: int|
                        0 <= j < next.len() && is_below(#[trigger] next[j], b) && segments(
                            next[j].path,
                        )[b.len() as int] == d;
                    if j < i {
                        assert(part[j] == next[j]);
                        assert(is_dir_name(part, b, d));
                    }
                }
                if after.contains(d) {
                    if before.contains(d) {
                        let j = choose|j: int|
                            0 <= j < part.len() && is_below(#[trigger] part[j], b) && segments(
                                part[j].path,
                            )[b.len() as int] == d;
                        assert(next[j] == part[j]);
                    } else {
                        assert(next[i as int] == iv[i as int]);
                        assert(is_below(next[i as int], b));
                    }
                }
            }
        }
        i += 1;
    }
    proof {
        assert(iv.take(i as int) =~= iv);
        lemma_dir_names(iv, b, texts(r@));
    }
    r
}

/// A list that begins with a list that begins with a third begins with the
/// third.
proof fn lemma_prefix_chain(a: Seq<StoredView>, b: Seq<StoredView>, c: Seq<StoredView>)
    requires
        a.is_prefix_of(b),
        b.is_prefix_of(c),
    ensures
        a.is_prefix_of(c),
{
    assert(a =~= c.subrange(0, a.len() as int)) by {
        assert forall|i: int| 0 <= i < a.len() implies a[i] == c[i] by {
            assert(a[i] == b.subrange(0, a.len() as int)[i]);
            assert(b[i] == c.subrange(0, b.len() as int)[i]);
        }
    }
}

/// Builds the level of the directory `base`, and adds to `out` the trees of the
/// directories below it.
fn build_level(
    index: &Vec<IndexEntry>,
    segs: &Vec<Vec<Vec<char>>>,
    base: &Vec<Vec<char>>,
    out: &mut Vec<StoredObject>,
) -> (r: Result<Vec<TreeEntry>, ObjectError>)
    requires
        segs_match(segs@, index@),
    ensures
        r is Err <==> bad_below(index_view(index@), texts(base@)),
        r matches Err(e) ==> e == ObjectError::InvalidHash,
        stored_views(old(out)@).is_prefix_of(stored_views(final(out)@)),
        r matches Ok(entries) ==> tree_view(entries@) == built_level(
            index_view(index@),
            texts(base@),
        ).entries && stored_views(final(out)@) == stored_views(old(out)@) + built_level(
            index_view(index@),
            texts(base@),
        ).written,
    decreases max_depth(index_view(index@)) - base@.len(),
{
    let ghost iv = index_view(index@);
    let ghost b = texts(base@);
    let mut entries = level_files(index, segs, base);
    let names = level_dirs(index, segs, base);
    let ghost nm = texts(names@);
    let ghost files = tree_view(entries@);
    let ghost out0 = stored_views(out@);
    let ghost mut done_entries: Seq<TreeEntryView> = Seq::empty();
    let ghost mut done_written: Seq<StoredView> = Seq::empty();
    let mut k: usize = 0;
    proof {
        assert(nm.skip(0) =~= nm);
        assert(done_entries + built_dirs(iv, b, nm).entries =~= built_dirs(iv, b, nm).entries);
        assert(done_written + built_dirs(iv, b, nm).written =~= built_dirs(iv, b, nm).written);
        assert(files + done_entries =~= files);
        assert(out0 + done_written =~= out0);
    }
    while k < names.len()
        invariant
            k <= names.len(),
            segs_match(segs@, index@),
            iv == index_view(index@),
            b == texts(base@),
            nm == texts(names@),
            lists_dirs(iv, b, nm),
            files == files_at(iv, b),
            tree_view(entries@) == files + done_entries,
            stored_views(out@) == out0 + done_written,
            out0 == stored_views(old(out)@),
            built_dirs(iv, b, nm).entries == done_entries + built_dirs(
                iv,
                b,
                nm.skip(k as int),
            ).entries,
            built_dirs(iv, b, nm).written == done_written + built_dirs(
                iv,
                b,
                nm.skip(k as int),
            ).written,
            forall|j: int|
                0 <= j < k ==> !bad_below(iv, b.push(#[trigger] nm[j])) && all_hashes_hex(
                    built_level(iv, b.push(nm[j])).entries,
                ),
        decreases names.len() - k,
    {
        let ghost d = nm[k as int];
        let ghost cb = b.push(d);
        let ghost rest_names = nm.skip(k as int);
        proof {
            assert(nm.contains(d));
            assert(is_dir_name(iv, b, d));
            let i = choose|i: int|
                0 <= i < iv.len() && is_below(#[trigger] iv[i], b) && segments(
                    iv[i].path,
                )[b.len() as int] == d;
            lemma_max_depth(iv, i);
            assert(rest_names[0] == d);
            assert(rest_names.drop_first() =~= nm.skip(k + 1));
        }
        let mut child: Vec<Vec<char>> = Vec::new();
        let mut c: usize = 0;
        while c < base.len()
            invariant
                c <= base.len(),
                texts(child@) == texts(base@).take(c as int),
            decreases base.len() - c,
        {
            let ghost prev = texts(child@);
            child.push(copy_chars(&base[c]));
            assert(texts(child@) =~= prev.push(texts(base@)[c as int]));
            assert(texts(base@).take(c + 1) =~= texts(base@).take(c as int).push(
                texts(base@)[c as int],
            ));
            c += 1;
        }
        let ghost prev = texts(child@);
        child.push(copy_chars(&names[k]));
        proof {
            assert(texts(base@).take(base@.len() as int) =~= texts(base@));
            assert(texts(child@) =~= prev.push(d));
            assert(texts(child@) == cb);
        }
        let ghost out_before = stored_views(out@);
        assert(out0 =~= out_before.subrange(0, out0.len() as int));
        let sub = match build_level(index, segs, &child, out) {
            Ok(sub) => sub,
            Err(e) => {
                proof {
                    lemma_prefix_chain(out0, out_before, stored_views(out@));
                    let i = choose|i: int|
                        0 <= i < iv.len() && is_below(#[trigger] iv[i], cb) && !is_hex(iv[i].hash);
                    let s = segments(iv[i].path);
                    assert(b =~= s.subrange(0, b.len() as int)) by {
                        assert(cb =~= s.subrange(0, cb.len() as int));
                        assert forall|x: int| 0 <= x < b.len() implies b[x] == s[x] by {
                            assert(cb[x] == s.subrange(0, cb.len() as int)[x]);
                        }
                    }
                    assert(is_below(iv[i], b));
                }
                return Err(e);
            },
        };
        let ghost level = built_level(iv, cb);
        let object = GitObject::Tree(sub);
        assert(object@ == ObjectView::Tree(level.entries));
        let data = match object.serialize() {
            Ok(data) => data,
            Err(_) => {
                proof {
                    lemma_prefix_chain(out0, out_before, stored_views(out@));
                    let all = level.entries;
                    let fa = files_at(iv, cb);
                    let x = choose|x: int| 0 <= x < all.len() && !is_hex(#[trigger] all[x].hash);
                    lemma_built_dirs_digests(iv, cb, dir_names(iv, cb));
                    lemma_files_at(iv, cb);
                    if x >= fa.len() {
                        let dirs = built_dirs(iv, cb, dir_names(iv, cb));
                        assert(all[x] == dirs.entries[x - fa.len()]);
                    }
                    assert(all[x] == fa[x]);
                    assert(is_file_entry(iv, cb, fa[x]));
                    let i = choose|i: int|
                        0 <= i < iv.len() && is_file_at(#[trigger] iv[i], cb) && fa[x]
                            == file_entry(iv[i], cb);
                    let s = segments(iv[i].path);
                    assert(b =~= s.subrange(0, b.len() as int)) by {
                        assert(cb =~= s.subrange(0, cb.len() as int));
                        assert forall|y: int| 0 <= y < b.len() implies b[y] == s[y] by {
                            assert(cb[y] == s.subrange(0, cb.len() as int)[y]);
                        }
                    }
                    assert(is_below(iv[i], b));
                }
                return Err(ObjectError::InvalidHash);
            },
        };
        let digest = hash_object(data.as_slice());
        let ghost stored = stored_tree(level.entries);
        let hash = digest.clone();
        out.push(StoredObject { hash, data });
        let mode = chars_to_string(&vec!['4', '0', '0', '0', '0']);
        let entry = TreeEntry { mode, name: chars_to_string(&names[k]), hash: digest };
        proof {
            assert(entry@ == dir_entry(d, stored.hash)) by {
                assert(entry.mode@ =~= dir_mode());
            }
            assert(stored_views(out@) =~= out_before + level.written + seq![stored]) by {
                assert(out@[out@.len() - 1]@ == stored);
            }
        }
        let ghost before_entries = tree_view(entries@);
        entries.push(entry);
        proof {
            assert(tree_view(entries@) =~= before_entries.push(entry@));
            let tail = built_dirs(iv, b, nm.skip(k + 1));
            let here = built_dirs(iv, b, rest_names);
            assert(here.entries == seq![dir_entry(d, stored.hash)] + tail.entries);
            assert(here.written == level.written + seq![stored] + tail.written);
            let new_entries = done_entries.push(entry@);
            let new_written = done_written + level.written + seq![stored];
            assert(new_entries + tail.entries =~= done_entries + here.entries);
            assert(new_written + tail.written =~= done_written + here.written);
            assert(files + new_entries =~= (files + done_entries).push(entry@));
            assert(out0 + new_written =~= out_before + level.written + seq![stored]);
            done_entries = new_entries;
            done_written = new_written;
        }
        k += 1;
    }
    proof {
        let tail = built_dirs(iv, b, nm.skip(k as int));
        assert(nm.skip(k as int) =~= Seq::<Seq<char>>::empty());
        assert(tail.entries =~= Seq::<TreeEntryView>::empty());
        assert(tail.written =~= Seq::<StoredView>::empty());
        assert(done_entries + tail.entries =~= done_entries);
        assert(done_written + tail.written =~= done_written);
        assert(out0 =~= stored_views(out@).subrange(0, out0.len() as int));
        if bad_below(iv, b) {
            let i = choose|i: int|
                0 <= i < iv.len() && is_below(#[trigger] iv[i], b) && !is_hex(iv[i].hash);
            let s = segments(iv[i].path);
            let d = s[b.len() as int];
            let cb = b.push(d);
            assert(is_dir_name(iv, b, d));
            assert(nm.contains(d));
            let j = choose|j: int| 0 <= j < nm.len() && nm[j] == d;
            assert(!bad_below(iv, b.push(nm[j])));
            assert(cb =~= s.subrange(0, cb.len() as int)) by {
                assert(b =~= s.subrange(0, b.len() as int));
                assert forall|x: int| 0 <= x < cb.len() implies cb[x] == s[x] by {
                    if x < b.len() {
                        assert(b[x] == s.subrange(0, b.len() as int)[x]);
                    }
                }
            }
            if s.len() >= b.len() + 3 {
                assert(is_below(iv[i], cb));
            } else {
                assert(is_file_at(iv[i], cb));
                lemma_files_at(iv, cb);
                let fa = files_at(iv, cb);
                assert(fa.contains(file_entry(iv[i], cb)));
                let x = choose|x: int| 0 <= x < fa.len() && fa[x] == file_entry(iv[i], cb);
                let all = built_level(iv, cb).entries;
                assert(all[x] == fa[x]);
                assert(is_hex(all[x].hash));
            }
        }
    }
    Ok(entries)
}

/// The stored form of a blob with the content `data`.
pub open spec fn stored_blob(data: Seq<u8>) -> StoredView {
    let bytes = framed(crate::objects::blob_tag(), data);
    StoredView { hash: object_digest(bytes), data: bytes }
}

/// The digest of the tree that a commit of `index` refers to.
pub open spec fn root_digest(index: Seq<IndexEntryView>) -> Seq<char> {
    stored_tree(built_level(index, Seq::empty()).entries).hash
}

/// Builds the entries of the directory `base_path` from the staged entries, and
/// adds to `out` the tree of every directory below it, each tree after the trees
/// it refers to.
///
/// The level holds the files of the directory in the order of the index, with
/// the mode and digest staged for them, then its directories in the order of
/// `str`, each with the directory mode and the digest of its tree. It fails
/// exactly if an entry in a directory below `base_path` has a digest that is not
/// hexadecimal; `out` may then have grown, but what it held stays in front.
pub fn create_tree_for_path(
    all_entries: &Vec<IndexEntry>,
    base_path: &str,
    out: &mut Vec<StoredObject>,
) -> (r: Result<Vec<TreeEntry>, ObjectError>)
    ensures
        r is Err <==> bad_below(index_view(all_entries@), segments(base_path@)),
        r matches Err(e) ==> e == ObjectError::InvalidHash,
        stored_views(old(out)@).is_prefix_of(stored_views(final(out)@)),
        r matches Ok(entries) ==> tree_view(entries@) == built_level(
            index_view(all_entries@),
            segments(base_path@),
        ).entries && stored_views(final(out)@) == stored_views(old(out)@) + built_level(
            index_view(all_entries@),
            segments(base_path@),
        ).written,
{
    let segs = split_all(all_entries);
    let base = split_path(&string_chars(base_path));
    build_level(all_entries, &segs, &base, out)
}

/// Builds the entries of the root tree from the staged entries, as
/// `create_tree_for_path` does for the empty path.
pub fn create_tree_from_index(index: &Vec<IndexEntry>, out: &mut Vec<StoredObject>) -> (r: Result<
    Vec<TreeEntry>,
    ObjectError,
>)
    ensures
        r is Err <==> bad_below(index_view(index@), Seq::empty()),
        r matches Err(e) ==> e == ObjectError::InvalidHash,
        stored_views(old(out)@).is_prefix_of(stored_views(final(out)@)),
        r matches Ok(entries) ==> tree_view(entries@) == built_level(
            index_view(index@),
            Seq::empty(),
        ).entries && stored_views(final(out)@) == stored_views(old(out)@) + built_level(
            index_view(index@),
            Seq::empty(),
        ).written,
{
    let segs = split_all(index);
    let base: Vec<Vec<char>> = Vec::new();
    assert(texts(base@) =~= Seq::<Seq<char>>::empty());
    build_level(index, &segs, &base, out)
}

/// Two builds from staged entries that hold the same give the same entries, the
/// same stored trees and so the same digest of the root tree.
pub proof fn law_build_deterministic(a: Seq<IndexEntry>, b: Seq<IndexEntry>)
    requires
        index_view(a) == index_view(b),
    ensures
        built_level(index_view(a), Seq::empty()) == built_level(index_view(b), Seq::empty()),
        root_digest(index_view(a)) == root_digest(index_view(b)),
{
}

} // verus!
