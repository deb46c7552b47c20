//! What holds of every build of trees: each tree is stored under the digest of
//! its bytes and after the trees it refers to, and the names of a level are
//! told apart.
use crate::hash::object_digest;
use crate::objects::IndexEntryView;
use crate::order::{
    lemma_lt_irreflexive, lemma_lt_total, lemma_lt_transitive, strictly_sorted, text_lt,
};
use crate::paths::segments;
use crate::tree::{
    built_dirs, built_level, dir_names, file_entry, files_at, is_below, is_dir_name, is_file_at,
    lemma_max_depth, lists_dirs, max_depth, stored_tree, StoredView,
};
use vstd::prelude::*;

verus! {

/// Every tree stored for the directories of a level is stored under the digest
/// of its bytes.
pub proof fn lemma_dirs_addressed(
    index: Seq<IndexEntryView>,
    base: Seq<Seq<char>>,
    names: Seq<Seq<char>>,
)
    ensures
        forall|k: int|
            0 <= k < built_dirs(index, base, names).written.len() ==> (#[trigger] built_dirs(
                index,
                base,
                names,
            ).written[k]).hash == object_digest(built_dirs(index, base, names).written[k].data),
    decreases max_depth(index) - base.len(), 0int, names.len(),
{
    if names.len() == 0 || base.len() >= max_depth(index) {
    } else {
        let child = base.push(names[0]);
        let first = built_level(index, child);
        let stored = stored_tree(first.entries);
        let rest = built_dirs(index, base, names.drop_first());
        law_written_addressed(index, child);
        lemma_dirs_addressed(index, base, names.drop_first());
        let all = built_dirs(index, base, names).written;
        assert forall|k: int| 0 <= k < all.len() implies (#[trigger] all[k]).hash == object_digest(
            all[k].data,
        ) by {
            if k < first.written.len() {
                assert(all[k] == first.written[k]);
            } else if k == first.written.len() {
            } else {
                assert(all[k] == rest.written[k - first.written.len() - 1]);
            }
        }
    }
}

/// Every tree that a build stores is stored under the digest of its bytes.
pub proof fn law_written_addressed(index: Seq<IndexEntryView>, base: Seq<Seq<char>>)
    ensures
        forall|k: int|
            0 <= k < built_level(index, base).written.len() ==> (#[trigger] built_level(
                index,
                base,
            ).written[k]).hash == object_digest(built_level(index, base).written[k].data),
    decreases max_depth(index) - base.len(), 1int, 0int,
{
    lemma_dirs_addressed(index, base, dir_names(index, base));
    let dirs = built_dirs(index, base, dir_names(index, base));
    assert(built_level(index, base).written == dirs.written);
    assert forall|k: int| 0 <= k < built_level(index, base).written.len() implies (
    #[trigger] built_level(index, base).written[k]).hash == object_digest(
        built_level(index, base).written[k].data,
    ) by {
        assert(dirs.written[k].hash == object_digest(dirs.written[k].data));
    }
}

/// Whether one of the first `limit` objects of `written` is stored under `hash`.
pub open spec fn is_stored(written: Seq<StoredView>, limit: int, hash: Seq<char>) -> bool {
    exists|i: int| 0 <= i < limit && i < written.len() && (#[trigger] written[i]).hash == hash
}

/// Whether each of the entries of directories of the level `base`, which
/// follow the entries of its files, names one of the first `limit` objects of
/// `written`.
pub open spec fn dirs_stored(
    index: Seq<IndexEntryView>,
    base: Seq<Seq<char>>,
    written: Seq<StoredView>,
    limit: int,
) -> bool {
    forall|k: int|
        files_at(index, base).len() <= k < built_level(index, base).entries.len() ==> is_stored(
            written,
            limit,
            (#[trigger] built_level(index, base).entries[k]).hash,
        )
}

/// Whether the object at `j` is the tree of some directory, all of whose
/// directories have their trees among the objects before it.
pub open spec fn tree_in_order(
    index: Seq<IndexEntryView>,
    written: Seq<StoredView>,
    j: int,
) -> bool {
    exists|path: Seq<Seq<char>>|
        written[j] == stored_tree(#[trigger] built_level(index, path).entries) && dirs_stored(
            index,
            path,
            written,
            j,
        )
}

/// What is stored among the first objects of a list is stored among the first
/// objects of a longer list, also behind other objects put in front.
proof fn lemma_is_stored_shift(
    part: Seq<StoredView>,
    limit: int,
    hash: Seq<char>,
    front: Seq<StoredView>,
    back: Seq<StoredView>,
)
    requires
        is_stored(part, limit, hash),
    ensures
        is_stored(front + part + back, front.len() + limit, hash),
{
    let i = choose|i: int| 0 <= i < limit && i < part.len() && (#[trigger] part[i]).hash == hash;
    let all = front + part + back;
    assert(all[front.len() + i] == part[i]);
}

/// The tree of every directory of a list of directories is among the objects
/// stored for them.
proof fn lemma_dirs_stored(index: Seq<IndexEntryView>, base: Seq<Seq<char>>, names: Seq<Seq<char>>)
    ensures
        forall|k: int|
            0 <= k < built_dirs(index, base, names).entries.len() ==> is_stored(
                built_dirs(index, base, names).written,
                built_dirs(index, base, names).written.len() as int,
                (#[trigger] built_dirs(index, base, names).entries[k]).hash,
            ),
    decreases names.len(),
{
    if names.len() == 0 || base.len() >= max_depth(index) {
    } else {
        let first = built_level(index, base.push(names[0]));
        let stored = stored_tree(first.entries);
        let rest = built_dirs(index, base, names.drop_first());
        let all = built_dirs(index, base, names);
        lemma_dirs_stored(index, base, names.drop_first());
        assert forall|k: int| 0 <= k < all.entries.len() implies is_stored(
            all.written,
            all.written.len() as int,
            (#[trigger] all.entries[k]).hash,
        ) by {
            if k == 0 {
                assert(all.written[first.written.len() as int] == stored);
            } else {
                assert(all.entries[k] == rest.entries[k - 1]);
                lemma_is_stored_shift(
                    rest.written,
                    rest.written.len() as int,
                    rest.entries[k - 1].hash,
                    first.written + seq![stored],
                    Seq::empty(),
                );
                assert(first.written + seq![stored] + rest.written + Seq::<StoredView>::empty()
                    =~= all.written);
            }
        }
    }
}

/// The tree of every directory of a level is among the objects stored for the
/// level: what a tree refers to has been written with it.
pub proof fn law_dirs_stored(index: Seq<IndexEntryView>, base: Seq<Seq<char>>)
    ensures
        dirs_stored(
            index,
            base,
            built_level(index, base).written,
            built_level(index, base).written.len() as int,
        ),
{
    let level = built_level(index, base);
    let dirs = built_dirs(index, base, dir_names(index, base));
    let files = files_at(index, base);
    lemma_dirs_stored(index, base, dir_names(index, base));
    assert forall|k: int| files.len() <= k < level.entries.len() implies is_stored(
        level.written,
        level.written.len() as int,
        (#[trigger] level.entries[k]).hash,
    ) by {
        assert(level.entries[k] == dirs.entries[k - files.len()]);
    }
}

/// Directories whose trees are among the first objects of a list have them
/// among the first objects of a longer list, also behind other objects put in
/// front.
proof fn lemma_dirs_stored_shift(
    index: Seq<IndexEntryView>,
    path: Seq<Seq<char>>,
    part: Seq<StoredView>,
    limit: int,
    front: Seq<StoredView>,
    back: Seq<StoredView>,
)
    requires
        dirs_stored(index, path, part, limit),
    ensures
        dirs_stored(index, path, front + part + back, front.len() + limit),
{
    assert forall|k: int|
        files_at(index, path).len() <= k < built_level(index, path).entries.len() implies is_stored(
        front + part + back,
        front.len() + limit,
        (#[trigger] built_level(index, path).entries[k]).hash,
    ) by {
        lemma_is_stored_shift(part, limit, built_level(index, path).entries[k].hash, front, back);
    }
}

/// A tree that stands in order in a list stands in order in a longer list, also
/// behind other objects put in front.
pub proof fn lemma_in_order_shift(
    index: Seq<IndexEntryView>,
    part: Seq<StoredView>,
    j: int,
    front: Seq<StoredView>,
    back: Seq<StoredView>,
)
    requires
        0 <= j < part.len(),
        tree_in_order(index, part, j),
    ensures
        tree_in_order(index, front + part + back, front.len() + j),
{
    let path = choose|path: Seq<Seq<char>>|
        part[j] == stored_tree(#[trigger] built_level(index, path).entries) && dirs_stored(
            index,
            path,
            part,
            j,
        );
    lemma_dirs_stored_shift(index, path, part, j, front, back);
    let all = front + part + back;
    assert(all[front.len() + j] == stored_tree(built_level(index, path).entries)
        && dirs_stored(index, path, all, front.len() + j));
}

/// The tree of a directory stands in order behind the objects stored for the
/// directory.
pub proof fn lemma_in_order_own(
    index: Seq<IndexEntryView>,
    child: Seq<Seq<char>>,
    back: Seq<StoredView>,
)
    ensures
        tree_in_order(
            index,
            built_level(index, child).written + seq![
                stored_tree(built_level(index, child).entries),
            ] + back,
            built_level(index, child).written.len() as int,
        ),
{
    let first = built_level(index, child);
    let stored = stored_tree(first.entries);
    law_dirs_stored(index, child);
    lemma_dirs_stored_shift(
        index,
        child,
        first.written,
        first.written.len() as int,
        Seq::empty(),
        seq![stored] + back,
    );
    let all = first.written + seq![stored] + back;
    assert(Seq::<StoredView>::empty() + first.written + (seq![stored] + back) =~= all);
    assert(all[first.written.len() as int] == stored_tree(built_level(index, child).entries)
        && dirs_stored(index, child, all, first.written.len() as int));
}

/// Among the objects stored for a list of directories each is a tree whose
/// directories have their trees before it.
proof fn lemma_dirs_in_order(
    index: Seq<IndexEntryView>,
    base: Seq<Seq<char>>,
    names: Seq<Seq<char>>,
)
    ensures
        forall|j: int|
            0 <= j < built_dirs(index, base, names).written.len() ==> tree_in_order(
                index,
                built_dirs(index, base, names).written,
                j,
            ),
    decreases max_depth(index) - base.len(), 0int, names.len(),
{
    if names.len() == 0 || base.len() >= max_depth(index) {
    } else {
        let child = base.push(names[0]);
        let first = built_level(index, child);
        let stored = stored_tree(first.entries);
        let rest = built_dirs(index, base, names.drop_first());
        let all = built_dirs(index, base, names).written;
        let offset = first.written.len() as int + 1;
        law_written_in_order(index, child);
        lemma_dirs_in_order(index, base, names.drop_first());
        assert(all =~= first.written + seq![stored] + rest.written);
        assert forall|j: int| 0 <= j < all.len() implies tree_in_order(index, all, j) by {
            if j < first.written.len() {
                lemma_in_order_shift(
                    index,
                    first.written,
                    j,
                    Seq::empty(),
                    seq![stored] + rest.written,
                );
                assert(Seq::<StoredView>::empty() + first.written + (seq![stored]
                    + rest.written) =~= all);
            } else if j == first.written.len() {
                lemma_in_order_own(index, child, rest.written);
            } else {
                lemma_in_order_shift(
                    index,
                    rest.written,
                    j - offset,
                    first.written + seq![stored],
                    Seq::empty(),
                );
                assert(first.written + seq![stored] + rest.written + Seq::<StoredView>::empty()
                    =~= all);
            }
        }
    }
}

/// Every object that a build stores is the tree of a directory, and the trees
/// of the directories in it are stored before it: no tree is written before
/// a tree that it refers to.
pub proof fn law_written_in_order(index: Seq<IndexEntryView>, base: Seq<Seq<char>>)
    ensures
        forall|j: int|
            0 <= j < built_level(index, base).written.len() ==> tree_in_order(
                index,
                built_level(index, base).written,
                j,
            ),
    decreases max_depth(index) - base.len(), 1int, 0int,
{
    lemma_dirs_in_order(index, base, dir_names(index, base));
    let dirs = built_dirs(index, base, dir_names(index, base));
    assert(built_level(index, base).written == dirs.written);
}

/// Whether no path of the index is, segment for segment, the start of another:
/// no two entries stand for the same file, and none for a file that is also a
/// directory of another.
pub open spec fn distinct_segments(index: Seq<IndexEntryView>) -> bool {
    forall|i: int, j: int|
        0 <= i < index.len() && 0 <= j < index.len() && i != j ==> !segments(
            (#[trigger] index[i]).path,
        ).is_prefix_of(segments((#[trigger] index[j]).path))
}

/// The places in the index of the files of the directory `base`, in their order.
pub open spec fn file_places(index: Seq<IndexEntryView>, base: Seq<Seq<char>>) -> Seq<int>
    decreases index.len(),
{
    if index.len() == 0 {
        Seq::empty()
    } else if is_file_at(index.last(), base) {
        file_places(index.drop_last(), base).push(index.len() - 1)
    } else {
        file_places(index.drop_last(), base)
    }
}

/// Each entry of a file of a level stands for the index entry at its place, and
/// the places go up.
proof fn lemma_file_places(index: Seq<IndexEntryView>, base: Seq<Seq<char>>)
    ensures
        file_places(index, base).len() == files_at(index, base).len(),
        forall|k: int|
            0 <= k < file_places(index, base).len() ==> 0 <= (#[trigger] file_places(
                index,
                base,
            )[k]) < index.len() && is_file_at(index[file_places(index, base)[k]], base)
                && files_at(index, base)[k] == file_entry(
                index[file_places(index, base)[k]],
                base,
            ),
        forall|k: int, m: int|
            0 <= k < m < file_places(index, base).len() ==> (#[trigger] file_places(
                index,
                base,
            )[k]) < (#[trigger] file_places(index, base)[m]),
    decreases index.len(),
{
    if index.len() > 0 {
        let init = index.drop_last();
        lemma_file_places(init, base);
        let places = file_places(index, base);
        let before = file_places(init, base);
        assert forall|k: int| 0 <= k < places.len() implies 0 <= (#[trigger] places[k])
            < index.len() && is_file_at(index[places[k]], base) && files_at(index, base)[k]
            == file_entry(index[places[k]], base) by {
            if k < before.len() {
                assert(places[k] == before[k]);
                assert(index[before[k]] == init[before[k]]);
            }
        }
        assert forall|k: int, m: int| 0 <= k < m < places.len() implies (#[trigger] places[k]) < (
        #[trigger] places[m]) by {
            assert(places[k] == before[k]);
            if m < before.len() {
                assert(places[m] == before[m]);
            }
        }
    }
}

/// The entries of a list of directories carry the names of the directories.
proof fn lemma_dir_entry_names(
    index: Seq<IndexEntryView>,
    base: Seq<Seq<char>>,
    names: Seq<Seq<char>>,
)
    requires
        base.len() < max_depth(index) || names.len() == 0,
    ensures
        built_dirs(index, base, names).entries.len() == names.len(),
        forall|k: int|
            0 <= k < names.len() ==> (#[trigger] built_dirs(index, base, names).entries[k]).name
                == names[k],
    decreases names.len(),
{
    if names.len() > 0 {
        let rest = built_dirs(index, base, names.drop_first());
        let all = built_dirs(index, base, names).entries;
        lemma_dir_entry_names(index, base, names.drop_first());
        assert forall|k: int| 0 <= k < names.len() implies (#[trigger] all[k]).name
            == names[k] by {
            if k > 0 {
                assert(all[k] == rest.entries[k - 1]);
                assert(names.drop_first()[k - 1] == names[k]);
            }
        }
    }
}

/// A list in strict order with `x` put in at its place, unless it is there.
spec fn put_in(list: Seq<Seq<char>>, x: Seq<char>) -> Seq<Seq<char>>
    decreases list.len(),
{
    if list.len() == 0 {
        seq![x]
    } else if text_lt(x, list[0]) {
        seq![x] + list
    } else if x == list[0] {
        list
    } else {
        seq![list[0]] + put_in(list.drop_first(), x)
    }
}

/// Putting a text into a list in strict order gives a list in strict order that
/// holds the text and what the list held.
proof fn lemma_put_in(list: Seq<Seq<char>>, x: Seq<char>)
    requires
        strictly_sorted(list),
    ensures
        strictly_sorted(put_in(list, x)),
        forall|y: Seq<char>|
            #![trigger put_in(list, x).contains(y)]
            #![trigger list.contains(y)]
            put_in(list, x).contains(y) <==> (list.contains(y) || y == x),
    decreases list.len(),
{
    let r = put_in(list, x);
    if list.len() == 0 {
        assert(r[0] == x);
        assert forall|y: Seq<char>| r.contains(y) <==> (list.contains(y) || y == x) by {
            if r.contains(y) {
                let k = choose|k: int| 0 <= k < r.len() && r[k] == y;
            }
        }
    } else if text_lt(x, list[0]) {
        assert forall|i: int, j: int| 0 <= i < j < r.len() implies text_lt(
            #[trigger] r[i],
            #[trigger] r[j],
        ) by {
            if i == 0 {
                assert(r[j] == list[j - 1]);
                if j > 1 {
                    assert(text_lt(list[0], list[j - 1]));
                    lemma_lt_transitive(x, list[0], list[j - 1]);
                }
            } else {
                assert(r[i] == list[i - 1] && r[j] == list[j - 1]);
            }
        }
        assert forall|y: Seq<char>| r.contains(y) <==> (list.contains(y) || y == x) by {
            if r.contains(y) {
                let k = choose|k: int| 0 <= k < r.len() && r[k] == y;
                if k > 0 {
                    assert(list[k - 1] == y);
                }
            }
            if list.contains(y) {
                let k = choose|k: int| 0 <= k < list.len() && list[k] == y;
                assert(r[k + 1] == y);
            }
            if y == x {
                assert(r[0] == y);
            }
        }
    } else if x == list[0] {
        assert(list.contains(list[0]));
    } else {
        let tail = list.drop_first();
        assert(strictly_sorted(tail)) by {
            assert forall|i: int, j: int| 0 <= i < j < tail.len() implies text_lt(
                #[trigger] tail[i],
                #[trigger] tail[j],
            ) by {
                assert(text_lt(list[i + 1], list[j + 1]));
            }
        }
        lemma_put_in(tail, x);
        lemma_lt_total(x, list[0]);
        let rest = put_in(tail, x);
        assert forall|y: Seq<char>| rest.contains(y) implies text_lt(list[0], y) by {
            if tail.contains(y) {
                let k = choose|k: int| 0 <= k < tail.len() && tail[k] == y;
                assert(text_lt(list[0], list[k + 1]));
            }
        }
        assert forall|i: int, j: int| 0 <= i < j < r.len() implies text_lt(
            #[trigger] r[i],
            #[trigger] r[j],
        ) by {
            if i == 0 {
                assert(r[j] == rest[j - 1]);
                assert(rest.contains(rest[j - 1]));
            } else {
                assert(r[i] == rest[i - 1] && r[j] == rest[j - 1]);
            }
        }
        assert forall|y: Seq<char>| r.contains(y) <==> (list.contains(y) || y == x) by {
            if r.contains(y) {
                let k = choose|k: int| 0 <= k < r.len() && r[k] == y;
                if k > 0 {
                    assert(rest[k - 1] == y);
                    assert(rest.contains(y));
                    if tail.contains(y) {
                        let m = choose|m: int| 0 <= m < tail.len() && tail[m] == y;
                        assert(list[m + 1] == y);
                    }
                } else {
                    assert(list[0] == y);
                }
            }
            if list.contains(y) {
                let k = choose|k: int| 0 <= k < list.len() && list[k] == y;
                if k == 0 {
                    assert(r[0] == y);
                } else {
                    assert(tail[k - 1] == y);
                    assert(tail.contains(y));
                    assert(rest.contains(y));
                    let m = choose|m: int| 0 <= m < rest.len() && rest[m] == y;
                    assert(r[m + 1] == y);
                }
            }
            if y == x {
                assert(rest.contains(y));
                let m = choose|m: int| 0 <= m < rest.len() && rest[m] == y;
                assert(r[m + 1] == y);
            }
        }
    }
}

/// The directories of `base` that the entries of `index` name, put into a list
/// one after the other.
spec fn dir_list(index: Seq<IndexEntryView>, base: Seq<Seq<char>>) -> Seq<Seq<char>>
    decreases index.len(),
{
    if index.len() == 0 {
        Seq::empty()
    } else if is_below(index.last(), base) {
        put_in(dir_list(index.drop_last(), base), segments(index.last().path)[base.len() as int])
    } else {
        dir_list(index.drop_last(), base)
    }
}

/// Every level has a list of its directories, so that `dir_names` is one.
pub proof fn lemma_dir_names_exist(index: Seq<IndexEntryView>, base: Seq<Seq<char>>)
    ensures
        lists_dirs(index, base, dir_names(index, base)),
{
    lemma_dir_list(index, base);
}

/// The list made by putting in the directories one after the other lists the
/// directories of the level.
proof fn lemma_dir_list(index: Seq<IndexEntryView>, base: Seq<Seq<char>>)
    ensures
        lists_dirs(index, base, dir_list(index, base)),
    decreases index.len(),
{
    let list = dir_list(index, base);
    if index.len() == 0 {
        assert forall|d: Seq<char>| list.contains(d) <==> is_dir_name(index, base, d) by {}
    } else {
        let init = index.drop_last();
        let before = dir_list(init, base);
        lemma_dir_list(init, base);
        let last = index.last();
        if is_below(last, base) {
            lemma_put_in(before, segments(last.path)[base.len() as int]);
        }
        assert forall|d: Seq<char>| list.contains(d) <==> is_dir_name(index, base, d) by {
            if is_dir_name(index, base, d) {
                let i = choose|i: int|
                    0 <= i < index.len() && is_below(#[trigger] index[i], base) && segments(
                        index[i].path,
                    )[base.len() as int] == d;
                if i < init.len() {
                    assert(init[i] == index[i]);
                    assert(is_dir_name(init, base, d));
                }
            }
            if list.contains(d) {
                if before.contains(d) {
                    let i = choose|i: int|
                        0 <= i < init.len() && is_below(#[trigger] init[i], base) && segments(
                            init[i].path,
                        )[base.len() as int] == d;
                    assert(index[i] == init[i]);
                } else {
                    assert(index[index.len() - 1] == last);
                }
            }
        }
    }
}

/// Where no path of the index is the start of another, no two entries of a
/// level have the same name.
pub proof fn law_entry_names_unique(index: Seq<IndexEntryView>, base: Seq<Seq<char>>)
    requires
        distinct_segments(index),
    ensures
        forall|a: int, b: int|
            0 <= a < b < built_level(index, base).entries.len() ==> (#[trigger] built_level(
                index,
                base,
            ).entries[a]).name != (#[trigger] built_level(index, base).entries[b]).name,
{
    let level = built_level(index, base).entries;
    let files = files_at(index, base);
    let places = file_places(index, base);
    let names = dir_names(index, base);
    let dirs = built_dirs(index, base, names).entries;
    lemma_file_places(index, base);
    lemma_dir_names_exist(index, base);
    if names.len() > 0 {
        assert(names.contains(names[0]));
        assert(is_dir_name(index, base, names[0]));
        let i = choose|i: int|
            0 <= i < index.len() && is_below(#[trigger] index[i], base) && segments(
                index[i].path,
            )[base.len() as int] == names[0];
        lemma_max_depth(index, i);
    }
    lemma_dir_entry_names(index, base, names);
    assert forall|a: int, b: int| 0 <= a < b < level.len() implies (#[trigger] level[a]).name != (
    #[trigger] level[b]).name by {
        if b < files.len() {
            // two files
            let i = places[a];
            let j = places[b];
            assert(level[a] == files[a] && level[b] == files[b]);
            if level[a].name == level[b].name {
                let si = segments(index[i].path);
                let sj = segments(index[j].path);
                assert(si =~= sj) by {
                    assert(base =~= si.subrange(0, base.len() as int));
                    assert(base =~= sj.subrange(0, base.len() as int));
                    assert forall|x: int| 0 <= x < si.len() implies si[x] == sj[x] by {
                        if x < base.len() {
                            assert(si.subrange(0, base.len() as int)[x] == si[x]);
                            assert(sj.subrange(0, base.len() as int)[x] == sj[x]);
                        }
                    }
                }
                assert(si =~= sj.subrange(0, si.len() as int));
                assert(si.is_prefix_of(sj));
            }
        } else if a >= files.len() {
            // two directories
            let x = a - files.len();
            let y = b - files.len();
            assert(level[a] == dirs[x] && level[b] == dirs[y]);
            assert(text_lt(names[x], names[y]));
            lemma_lt_irreflexive(names[x]);
        } else {
            // a file and a directory
            let i = places[a];
            let y = b - files.len();
            assert(level[a] == files[a] && level[b] == dirs[y]);
            if level[a].name == level[b].name {
                let d = names[y];
                assert(names.contains(d));
                assert(is_dir_name(index, base, d));
                let j = choose|j: int|
                    0 <= j < index.len() && is_below(#[trigger] index[j], base) && segments(
                        index[j].path,
                    )[base.len() as int] == d;
                let si = segments(index[i].path);
                let sj = segments(index[j].path);
                assert(si =~= sj.subrange(0, si.len() as int)) by {
                    assert(base =~= si.subrange(0, base.len() as int));
                    assert(base =~= sj.subrange(0, base.len() as int));
                    assert forall|x: int| 0 <= x < si.len() implies si[x] == sj[x] by {
                        if x < base.len() {
                            assert(si.subrange(0, base.len() as int)[x] == si[x]);
                            assert(sj.subrange(0, base.len() as int)[x] == sj[x]);
                        }
                    }
                }
                assert(si.is_prefix_of(sj));
                assert(i != j);
            }
        }
    }
}

} // verus!
