//! Reading back what was committed: the walk through the trees that a build
//! stored lists the files that were staged.
use crate::objects::{IndexEntryView, ObjectView, TreeEntryView};
use crate::paths::{joined, segments, with_slashes};
use crate::roundtrip::lacks;
use crate::tree::{
    built_dirs, built_level, dir_entry, dir_mode, dir_names, file_entry, files_at, is_below,
    is_dir_name, is_file_at, lemma_max_depth, max_depth, root_digest, stored_tree,
};
use crate::tree_laws::lemma_dir_names_exist;
use crate::walk::{entry_path, flat_entries, flat_tree};
use vstd::prelude::*;

verus! {

/// The path with the segments `segs`: the segments with slashes between them.
pub open spec fn path_of(segs: Seq<Seq<char>>) -> Seq<char>
    decreases segs.len(),
{
    if segs.len() == 0 {
        Seq::empty()
    } else {
        joined(path_of(segs.drop_last()), segs.last())
    }
}

/// The files of the directory `base`, each with its path and digest, in the
/// order of the index.
pub open spec fn flat_files(index: Seq<IndexEntryView>, base: Seq<Seq<char>>) -> Seq<
    (Seq<char>, Seq<char>),
>
    decreases index.len(),
{
    if index.len() == 0 {
        Seq::empty()
    } else if is_file_at(index.last(), base) {
        flat_files(index.drop_last(), base).push(staged_pair(index.last()))
    } else {
        flat_files(index.drop_last(), base)
    }
}

/// The files in and below the directory `base`, each with its path and digest:
/// first the files of the directory, then those of its directories in turn.
pub open spec fn flat_index(index: Seq<IndexEntryView>, base: Seq<Seq<char>>) -> Seq<
    (Seq<char>, Seq<char>),
>
    decreases max_depth(index) - base.len(), 1int, 0int,
{
    flat_files(index, base) + flat_dirs(index, base, dir_names(index, base))
}

/// The files in and below the directories `names` of the directory `base`.
pub open spec fn flat_dirs(
    index: Seq<IndexEntryView>,
    base: Seq<Seq<char>>,
    names: Seq<Seq<char>>,
) -> Seq<(Seq<char>, Seq<char>)>
    decreases max_depth(index) - base.len(), 0int, names.len(),
{
    if names.len() == 0 || base.len() >= max_depth(index) {
        Seq::empty()
    } else {
        flat_index(index, base.push(names[0])) + flat_dirs(index, base, names.drop_first())
    }
}

/// Whether no staged entry has the mode of a directory.
pub open spec fn modes_are_files(index: Seq<IndexEntryView>) -> bool {
    forall|i: int| 0 <= i < index.len() ==> (#[trigger] index[i]).mode != dir_mode()
}

/// Whether no segment of a staged path holds a backslash.
pub open spec fn plain_segments(index: Seq<IndexEntryView>) -> bool {
    forall|i: int, k: int|
        0 <= i < index.len() && 0 <= k < segments(index[i].path).len() ==> lacks(
            #[trigger] segments((#[trigger] index[i]).path)[k],
            '\\',
        )
}

/// Whether the store holds the tree of every directory under its digest.
pub open spec fn holds_trees(store: Map<Seq<char>, ObjectView>, index: Seq<IndexEntryView>) -> bool {
    forall|path: Seq<Seq<char>>|
        store.contains_key(stored_tree(#[trigger] built_level(index, path).entries).hash)
            && store[stored_tree(built_level(index, path).entries).hash] == ObjectView::Tree(
            built_level(index, path).entries,
        )
}

/// Two results of flattening put one behind the other.
pub open spec fn both(
    a: Option<Seq<(Seq<char>, Seq<char>)>>,
    b: Option<Seq<(Seq<char>, Seq<char>)>>,
) -> Option<Seq<(Seq<char>, Seq<char>)>> {
    match (a, b) {
        (Some(x), Some(y)) => Some(x + y),
        _ => None,
    }
}

/// Flattening entries one list behind another gives the one result behind the
/// other.
proof fn lemma_flat_append(
    store: Map<Seq<char>, ObjectView>,
    a: Seq<TreeEntryView>,
    b: Seq<TreeEntryView>,
    prefix: Seq<char>,
    depth: nat,
)
    ensures
        flat_entries(store, a + b, prefix, depth) == both(
            flat_entries(store, a, prefix, depth),
            flat_entries(store, b, prefix, depth),
        ),
    decreases a.len(),
{
    if a.len() == 0 {
        assert(a + b =~= b);
        match flat_entries(store, b, prefix, depth) {
            Some(y) => {
                assert(Seq::<(Seq<char>, Seq<char>)>::empty() + y =~= y);
            },
            None => {},
        }
    } else {
        let all = a + b;
        assert(all[0] == a[0]);
        assert(all.drop_first() =~= a.drop_first() + b);
        lemma_flat_append(store, a.drop_first(), b, prefix, depth);
        let e = a[0];
        let path = entry_path(prefix, e.name);
        let first = if e.mode == dir_mode() {
            flat_tree(store, e.hash, path, depth)
        } else {
            Some(seq![(path, e.hash)])
        };
        match (
            first,
            flat_entries(store, a.drop_first(), prefix, depth),
            flat_entries(store, b, prefix, depth),
        ) {
            (Some(x), Some(y), Some(z)) => {
                assert(x + (y + z) =~= (x + y) + z);
            },
            _ => {},
        }
    }
}

/// A text without a backslash is left as it is.
proof fn lemma_with_slashes_same(s: Seq<char>)
    requires
        lacks(s, '\\'),
    ensures
        with_slashes(s) == s,
{
    assert(with_slashes(s) =~= s);
}

/// A path made of segments without a backslash holds none.
proof fn lemma_path_of_plain(segs: Seq<Seq<char>>)
    requires
        forall|k: int| 0 <= k < segs.len() ==> lacks(#[trigger] segs[k], '\\'),
    ensures
        lacks(path_of(segs), '\\'),
    decreases segs.len(),
{
    if segs.len() > 0 {
        let init = segs.drop_last();
        assert forall|k: int| 0 <= k < init.len() implies lacks(#[trigger] init[k], '\\') by {
            assert(init[k] == segs[k]);
        }
        lemma_path_of_plain(init);
        let p = path_of(init);
        let n = segs.last();
        assert(lacks(n, '\\'));
        let j = joined(p, n);
        assert forall|i: int| 0 <= i < j.len() implies #[trigger] j[i] != '\\' by {
            if p.len() == 0 {
            } else if i < p.len() {
                assert(j[i] == p[i]);
            } else if i == p.len() {
            } else {
                assert(j[i] == n[i - p.len() - 1]);
            }
        }
    }
}

/// The segments of a path that begin the segments of a staged path hold no
/// backslash.
proof fn lemma_prefix_plain(index: Seq<IndexEntryView>, i: int, segs: Seq<Seq<char>>)
    requires
        plain_segments(index),
        0 <= i < index.len(),
        segs.is_prefix_of(segments(index[i].path)),
    ensures
        forall|k: int| 0 <= k < segs.len() ==> lacks(#[trigger] segs[k], '\\'),
        lacks(path_of(segs), '\\'),
{
    let whole = segments(index[i].path);
    assert forall|k: int| 0 <= k < segs.len() implies lacks(#[trigger] segs[k], '\\') by {
        assert(segs =~= whole.subrange(0, segs.len() as int));
        assert(segs[k] == whole.subrange(0, segs.len() as int)[k]);
        assert(lacks(whole[k], '\\'));
    }
    lemma_path_of_plain(segs);
}

/// The path of a file of the directory `base`, as a walk gives it, is the path
/// of its segments.
proof fn lemma_file_path(index: Seq<IndexEntryView>, i: int, base: Seq<Seq<char>>)
    requires
        plain_segments(index),
        0 <= i < index.len(),
        is_file_at(index[i], base),
    ensures
        entry_path(path_of(base), file_entry(index[i], base).name) == path_of(
            segments(index[i].path),
        ),
{
    let segs = segments(index[i].path);
    let name = segs[base.len() as int];
    assert(segs.drop_last() =~= base) by {
        assert(base =~= segs.subrange(0, base.len() as int));
    }
    assert(segs.last() == name);
    assert(segs.is_prefix_of(segs)) by {
        assert(segs =~= segs.subrange(0, segs.len() as int));
    }
    lemma_prefix_plain(index, i, segs);
    lemma_with_slashes_same(path_of(segs));
}

/// The entries of the files of a level are flattened to the files of the level.
proof fn lemma_flat_of_files(
    store: Map<Seq<char>, ObjectView>,
    index: Seq<IndexEntryView>,
    whole: Seq<IndexEntryView>,
    base: Seq<Seq<char>>,
    depth: nat,
)
    requires
        modes_are_files(whole),
        plain_segments(whole),
        index.is_prefix_of(whole),
    ensures
        flat_entries(store, files_at(index, base), path_of(base), depth) == Some(
            flat_files(index, base),
        ),
    decreases index.len(),
{
    if index.len() > 0 {
        let init = index.drop_last();
        let last = index.last();
        let at = index.len() - 1;
        assert(index =~= whole.subrange(0, index.len() as int));
        assert(last == whole[at]) by {
            assert(index[at] == whole.subrange(0, index.len() as int)[at]);
        }
        assert(init.is_prefix_of(whole)) by {
            assert(init =~= whole.subrange(0, init.len() as int));
        }
        lemma_flat_of_files(store, init, whole, base, depth);
        if is_file_at(last, base) {
            let e = file_entry(last, base);
            let one = seq![e];
            lemma_flat_append(store, files_at(init, base), one, path_of(base), depth);
            assert(files_at(init, base).push(e) =~= files_at(init, base) + one);
            lemma_file_path(whole, at, base);
            assert(e.mode != dir_mode());
            assert(one.drop_first() =~= Seq::<TreeEntryView>::empty());
            let pair = (path_of(segments(last.path)), last.hash);
            assert(flat_entries(store, one, path_of(base), depth) == Some(seq![pair])) by {
                let none = Seq::<TreeEntryView>::empty();
                assert(flat_entries(store, none, path_of(base), depth) == Some(
                    Seq::<(Seq<char>, Seq<char>)>::empty(),
                ));
                assert(one[0] == e);
                assert(entry_path(path_of(base), e.name) == pair.0);
                assert(e.hash == pair.1);
                assert(seq![pair] + Seq::<(Seq<char>, Seq<char>)>::empty() =~= seq![pair]);
            }
            assert(flat_files(init, base) + seq![pair] =~= flat_files(init, base).push(pair));
        }
    }
}

/// The entries of the directories of a level are flattened to the files in and
/// below them.
proof fn lemma_flat_of_dirs(
    store: Map<Seq<char>, ObjectView>,
    index: Seq<IndexEntryView>,
    base: Seq<Seq<char>>,
    names: Seq<Seq<char>>,
    depth: nat,
)
    requires
        modes_are_files(index),
        plain_segments(index),
        holds_trees(store, index),
        forall|k: int| 0 <= k < names.len() ==> is_dir_name(index, base, #[trigger] names[k]),
        depth >= max_depth(index) - base.len() - 1,
    ensures
        flat_entries(store, built_dirs(index, base, names).entries, path_of(base), depth) == Some(
            flat_dirs(index, base, names),
        ),
    decreases max_depth(index) - base.len(), 0int, names.len(),
{
    if names.len() > 0 {
        let d = names[0];
        let child = base.push(d);
        assert(is_dir_name(index, base, d));
        let j = choose|j: int|
            0 <= j < index.len() && is_below(#[trigger] index[j], base) && segments(
                index[j].path,
            )[base.len() as int] == d;
        lemma_max_depth(index, j);
        let segs = segments(index[j].path);
        assert(child.is_prefix_of(segs)) by {
            assert(base =~= segs.subrange(0, base.len() as int));
            assert forall|x: int| 0 <= x < child.len() implies child[x] == segs[x] by {
                if x < base.len() {
                    assert(base[x] == segs.subrange(0, base.len() as int)[x]);
                }
            }
            assert(child =~= segs.subrange(0, child.len() as int));
        }
        lemma_prefix_plain(index, j, child);
        assert(child.drop_last() =~= base);
        assert(path_of(child) == joined(path_of(base), d));
        lemma_with_slashes_same(path_of(child));
        let level = built_level(index, child);
        let digest = stored_tree(level.entries).hash;
        let e = dir_entry(d, digest);
        let one = seq![e];
        let rest_names = names.drop_first();
        let rest = built_dirs(index, base, rest_names);
        assert forall|k: int| 0 <= k < rest_names.len() implies is_dir_name(
            index,
            base,
            #[trigger] rest_names[k],
        ) by {
            assert(rest_names[k] == names[k + 1]);
        }
        lemma_flat_level(store, index, child, (depth - 1) as nat);
        lemma_flat_of_dirs(store, index, base, rest_names, depth);
        assert(built_dirs(index, base, names).entries =~= one + rest.entries);
        lemma_flat_append(store, one, rest.entries, path_of(base), depth);
        assert(one.drop_first() =~= Seq::<TreeEntryView>::empty());
        assert(store[digest] == ObjectView::Tree(level.entries));
        assert(flat_entries(store, one, path_of(base), depth) == Some(
            flat_index(index, child),
        )) by {
            let none = Seq::<TreeEntryView>::empty();
            assert(flat_entries(store, none, path_of(base), depth) == Some(
                Seq::<(Seq<char>, Seq<char>)>::empty(),
            ));
            assert(one[0] == e);
            assert(e.mode == dir_mode());
            assert(entry_path(path_of(base), e.name) == path_of(child));
            assert(depth >= 1);
            assert(flat_tree(store, digest, path_of(child), depth) == flat_entries(
                store,
                level.entries,
                path_of(child),
                (depth - 1) as nat,
            ));
            assert(flat_index(index, child) + Seq::<(Seq<char>, Seq<char>)>::empty()
                =~= flat_index(index, child));
        }
    }
}

/// The entries of a level are flattened to the files in and below its
/// directory.
proof fn lemma_flat_level(
    store: Map<Seq<char>, ObjectView>,
    index: Seq<IndexEntryView>,
    base: Seq<Seq<char>>,
    depth: nat,
)
    requires
        modes_are_files(index),
        plain_segments(index),
        holds_trees(store, index),
        depth >= max_depth(index) - base.len() - 1,
    ensures
        flat_entries(store, built_level(index, base).entries, path_of(base), depth) == Some(
            flat_index(index, base),
        ),
    decreases max_depth(index) - base.len(), 1int, 0int,
{
    let names = dir_names(index, base);
    lemma_dir_names_exist(index, base);
    assert forall|k: int| 0 <= k < names.len() implies is_dir_name(
        index,
        base,
        #[trigger] names[k],
    ) by {
        assert(names.contains(names[k]));
    }
    assert(index.is_prefix_of(index)) by {
        assert(index =~= index.subrange(0, index.len() as int));
    }
    lemma_flat_of_files(store, index, index, base, depth);
    lemma_flat_of_dirs(store, index, base, names, depth);
    lemma_flat_append(
        store,
        files_at(index, base),
        built_dirs(index, base, names).entries,
        path_of(base),
        depth,
    );
}

/// A walk through the trees that a build stored, from the root tree down, lists
/// the staged files: those of the root first, then those of each directory in
/// turn, every file with the path of its segments and its staged digest.
pub proof fn law_walk_reads_back(
    store: Map<Seq<char>, ObjectView>,
    index: Seq<IndexEntryView>,
    depth: nat,
)
    requires
        modes_are_files(index),
        plain_segments(index),
        holds_trees(store, index),
        depth > max_depth(index),
    ensures
        flat_tree(store, root_digest(index), Seq::empty(), depth) == Some(
            flat_index(index, Seq::empty()),
        ),
{
    let root = Seq::<Seq<char>>::empty();
    lemma_flat_level(store, index, root, (depth - 1) as nat);
    assert(store[root_digest(index)] == ObjectView::Tree(built_level(index, root).entries));
}

/// The path and the digest of a staged entry, as a walk lists them.
pub open spec fn staged_pair(e: IndexEntryView) -> (Seq<char>, Seq<char>) {
    (path_of(segments(e.path)), e.hash)
}

/// Whether `x` is the path and digest of a staged entry in or below the
/// directory `base`.
pub open spec fn staged_under(
    index: Seq<IndexEntryView>,
    base: Seq<Seq<char>>,
    x: (Seq<char>, Seq<char>),
) -> bool {
    exists|i: int|
        0 <= i < index.len() && base.is_prefix_of(segments((#[trigger] index[i]).path))
            && segments(index[i].path).len() > base.len() && x == staged_pair(index[i])
}

/// What one list behind another holds is what the one or the other holds.
proof fn lemma_contains_either(
    a: Seq<(Seq<char>, Seq<char>)>,
    b: Seq<(Seq<char>, Seq<char>)>,
    x: (Seq<char>, Seq<char>),
)
    ensures
        (a + b).contains(x) <==> (a.contains(x) || b.contains(x)),
{
    let all = a + b;
    if all.contains(x) {
        let k = choose|k: int| 0 <= k < all.len() && all[k] == x;
        if k < a.len() {
            assert(a[k] == x);
        } else {
            assert(b[k - a.len()] == x);
        }
    }
    if a.contains(x) {
        let k = choose|k: int| 0 <= k < a.len() && a[k] == x;
        assert(all[k] == x);
    }
    if b.contains(x) {
        let k = choose|k: int| 0 <= k < b.len() && b[k] == x;
        assert(all[a.len() + k] == x);
    }
}

/// The files listed for a directory are the staged files of the directory.
proof fn lemma_flat_files_members(
    index: Seq<IndexEntryView>,
    base: Seq<Seq<char>>,
    x: (Seq<char>, Seq<char>),
)
    ensures
        flat_files(index, base).contains(x) <==> exists|i: int|
            0 <= i < index.len() && is_file_at(#[trigger] index[i], base) && x == staged_pair(
                index[i],
            ),
    decreases index.len(),
{
    if index.len() > 0 {
        let init = index.drop_last();
        let last = index.last();
        lemma_flat_files_members(init, base, x);
        let before = flat_files(init, base);
        let all = flat_files(index, base);
        if all.contains(x) {
            let k = choose|k: int| 0 <= k < all.len() && all[k] == x;
            if k < before.len() {
                assert(before[k] == x);
                assert(before.contains(x));
                let i = choose|i: int|
                    0 <= i < init.len() && is_file_at(#[trigger] init[i], base) && x
                        == staged_pair(init[i]);
                assert(index[i] == init[i]);
            } else {
                assert(index[index.len() - 1] == last);
            }
        }
        if exists|i: int|
            0 <= i < index.len() && is_file_at(#[trigger] index[i], base) && x == staged_pair(
                index[i],
            ) {
            let i = choose|i: int|
                0 <= i < index.len() && is_file_at(#[trigger] index[i], base) && x
                    == staged_pair(index[i]);
            if i < init.len() {
                assert(init[i] == index[i]);
                assert(before.contains(x));
                let k = choose|k: int| 0 <= k < before.len() && before[k] == x;
                assert(all[k] == x);
            } else {
                assert(all[all.len() - 1] == x);
            }
        }
    }
}

/// Whether `x` is the path and digest of a staged entry in or below one of
/// the directories `names` of the directory `base`.
spec fn staged_in(
    index: Seq<IndexEntryView>,
    base: Seq<Seq<char>>,
    names: Seq<Seq<char>>,
    x: (Seq<char>, Seq<char>),
) -> bool {
    exists|k: int| 0 <= k < names.len() && staged_under(index, base.push(#[trigger] names[k]), x)
}

/// The files listed for directories are the staged files in and below them.
proof fn lemma_flat_dirs_members(
    index: Seq<IndexEntryView>,
    base: Seq<Seq<char>>,
    names: Seq<Seq<char>>,
    x: (Seq<char>, Seq<char>),
)
    ensures
        flat_dirs(index, base, names).contains(x) <==> staged_in(index, base, names, x),
    decreases max_depth(index) - base.len(), 0int, names.len(),
{
    if names.len() == 0 {
    } else if base.len() >= max_depth(index) {
        if staged_in(index, base, names, x) {
            let k = choose|k: int|
                0 <= k < names.len() && staged_under(index, base.push(#[trigger] names[k]), x);
            let child = base.push(names[k]);
            let i = choose|i: int|
                0 <= i < index.len() && child.is_prefix_of(segments((#[trigger] index[i]).path))
                    && segments(index[i].path).len() > child.len() && x == staged_pair(index[i]);
            lemma_max_depth(index, i);
        }
    } else {
        let rest = names.drop_first();
        lemma_flat_index_members(index, base.push(names[0]), x);
        lemma_flat_dirs_members(index, base, rest, x);
        lemma_contains_either(
            flat_index(index, base.push(names[0])),
            flat_dirs(index, base, rest),
            x,
        );
        if staged_in(index, base, rest, x) {
            let k = choose|k: int|
                0 <= k < rest.len() && staged_under(index, base.push(#[trigger] rest[k]), x);
            assert(names[k + 1] == rest[k]);
        }
        if staged_in(index, base, names, x) {
            let k = choose|k: int|
                0 <= k < names.len() && staged_under(index, base.push(#[trigger] names[k]), x);
            if k > 0 {
                assert(rest[k - 1] == names[k]);
            }
        }
    }
}

/// The files listed for a directory and what lies below it are the staged
/// files in and below the directory.
proof fn lemma_flat_index_members(
    index: Seq<IndexEntryView>,
    base: Seq<Seq<char>>,
    x: (Seq<char>, Seq<char>),
)
    ensures
        flat_index(index, base).contains(x) <==> staged_under(index, base, x),
    decreases max_depth(index) - base.len(), 1int, 0int,
{
    let names = dir_names(index, base);
    lemma_dir_names_exist(index, base);
    lemma_flat_files_members(index, base, x);
    lemma_flat_dirs_members(index, base, names, x);
    lemma_contains_either(flat_files(index, base), flat_dirs(index, base, names), x);
    if staged_under(index, base, x) {
        let i = choose|i: int|
            0 <= i < index.len() && base.is_prefix_of(segments((#[trigger] index[i]).path))
                && segments(index[i].path).len() > base.len() && x == staged_pair(index[i]);
        let segs = segments(index[i].path);
        if segs.len() > base.len() + 1 {
            let d = segs[base.len() as int];
            let child = base.push(d);
            assert(is_below(index[i], base));
            assert(is_dir_name(index, base, d));
            assert(names.contains(d));
            let k = choose|k: int| 0 <= k < names.len() && names[k] == d;
            assert(child.is_prefix_of(segs)) by {
                assert(base =~= segs.subrange(0, base.len() as int));
                assert forall|y: int| 0 <= y < child.len() implies child[y] == segs[y] by {
                    if y < base.len() {
                        assert(base[y] == segs.subrange(0, base.len() as int)[y]);
                    }
                }
                assert(child =~= segs.subrange(0, child.len() as int));
            }
            assert(staged_under(index, base.push(names[k]), x));
        } else {
            assert(is_file_at(index[i], base));
        }
    }
    if flat_files(index, base).contains(x) {
        let i = choose|i: int|
            0 <= i < index.len() && is_file_at(#[trigger] index[i], base) && x == staged_pair(
                index[i],
            );
        assert(staged_under(index, base, x));
    }
    if staged_in(index, base, names, x) {
        let k = choose|k: int|
            0 <= k < names.len() && staged_under(index, base.push(#[trigger] names[k]), x);
        let child = base.push(names[k]);
        let i = choose|i: int|
            0 <= i < index.len() && child.is_prefix_of(segments((#[trigger] index[i]).path))
                && segments(index[i].path).len() > child.len() && x == staged_pair(index[i]);
        let segs = segments(index[i].path);
        assert(base.is_prefix_of(segs)) by {
            assert(child =~= segs.subrange(0, child.len() as int));
            assert forall|y: int| 0 <= y < base.len() implies base[y] == segs[y] by {
                assert(child[y] == segs.subrange(0, child.len() as int)[y]);
            }
            assert(base =~= segs.subrange(0, base.len() as int));
        }
        assert(staged_under(index, base, x));
    }
}

/// What a walk through the stored trees lists is what was staged: a path with a
/// digest is listed exactly if it is the path and digest of a staged entry
/// whose path has a segment.
pub proof fn law_read_back_is_staged(index: Seq<IndexEntryView>, x: (Seq<char>, Seq<char>))
    ensures
        flat_index(index, Seq::empty()).contains(x) <==> exists|i: int|
            0 <= i < index.len() && segments((#[trigger] index[i]).path).len() >= 1 && x
                == staged_pair(index[i]),
{
    let root = Seq::<Seq<char>>::empty();
    lemma_flat_index_members(index, root, x);
    if staged_under(index, root, x) {
        let i = choose|i: int|
            0 <= i < index.len() && root.is_prefix_of(segments((#[trigger] index[i]).path))
                && segments(index[i].path).len() > root.len() && x == staged_pair(index[i]);
        assert(segments(index[i].path).len() >= 1);
    }
    if exists|i: int|
        0 <= i < index.len() && segments((#[trigger] index[i]).path).len() >= 1 && x
            == staged_pair(index[i]) {
        let i = choose|i: int|
            0 <= i < index.len() && segments((#[trigger] index[i]).path).len() >= 1 && x
                == staged_pair(index[i]);
        assert(root.is_prefix_of(segments(index[i].path))) by {
            assert(root =~= segments(index[i].path).subrange(0, 0));
        }
        assert(staged_under(index, root, x));
    }
}

} // verus!
