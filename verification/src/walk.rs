//! Flattening a tree: from the tree of a commit to the list of its files. The
//! objects are read by the caller, one at a time, as the walk asks for them.
use crate::objects::{tree_view, GitObject, ObjectView, TreeEntry, TreeEntryView};
use crate::paths::{join_path, joined, normalize_separators, with_slashes};
use crate::status::digest_pairs;
use crate::text::{chars_to_string, same_chars, string_chars};
use crate::tree::dir_mode;
use vstd::prelude::*;

verus! {

/// A tree that is being gone through: the path of its directory, its entries,
/// and how many of them have been taken.
#[derive(Debug, Clone, PartialEq, Eq)]
pub struct Frame {
    pub prefix: String,
    pub entries: Vec<TreeEntry>,
    pub next: usize,
}

/// A walk through the trees below one tree, from the root down and in the order
/// of the entries. `frames` holds the trees that are being gone through, the
/// innermost last; `files` the files found so far, each with its digest;
/// `request` the digest of the tree to read next and the path of its directory,
/// or `None` once the walk is over.
#[derive(Debug, Clone, PartialEq, Eq)]
pub struct TreeWalk {
    pub frames: Vec<Frame>,
    pub files: Vec<(String, String)>,
    pub request: Option<(String, String)>,
}

/// What a `Frame` holds.
pub struct FrameView {
    pub prefix: Seq<char>,
    pub entries: Seq<TreeEntryView>,
    pub next: int,
}

/// What a `TreeWalk` holds.
pub struct WalkView {
    pub frames: Seq<FrameView>,
    pub files: Seq<(Seq<char>, Seq<char>)>,
    pub request: Option<(Seq<char>, Seq<char>)>,
}

impl View for Frame {
    type V = FrameView;

    open spec fn view(&self) -> FrameView {
        FrameView {
            prefix: self.prefix@,
            entries: tree_view(self.entries@),
            next: self.next as int,
        }
    }
}

/// What a list of frames holds.
pub open spec fn frame_views(frames: Seq<Frame>) -> Seq<FrameView> {
    Seq::new(frames.len(), |i: int| frames[i]@)
}

impl View for TreeWalk {
    type V = WalkView;

    open spec fn view(&self) -> WalkView {
        WalkView {
            frames: frame_views(self.frames@),
            files: digest_pairs(self.files@),
            request: match self.request {
                Some((hash, prefix)) => Some((hash@, prefix@)),
                None => None,
            },
        }
    }
}

/// The number of entries that the frames have yet to give.
pub open spec fn remaining(frames: Seq<FrameView>) -> nat
    decreases frames.len(),
{
    if frames.len() == 0 {
        0
    } else {
        let top = frames.last();
        let left = if 0 <= top.next < top.entries.len() {
            (top.entries.len() - top.next) as nat
        } else {
            0
        };
        remaining(frames.drop_last()) + left
    }
}

/// The path of the entry `name` in the directory `prefix`, with slashes for
/// backslashes.
pub open spec fn entry_path(prefix: Seq<char>, name: Seq<char>) -> Seq<char> {
    with_slashes(joined(prefix, name))
}

/// The walk after it has gone on as far as it can without reading: entries
/// that are files are put on the list, a frame that is used up is dropped, and
/// the first entry with the directory mode becomes the request. Without a frame
/// left the walk is over.
pub open spec fn advanced(frames: Seq<FrameView>, files: Seq<(Seq<char>, Seq<char>)>) -> WalkView
    decreases remaining(frames), frames.len(),
    via advanced_decreases
{
    if frames.len() == 0 {
        WalkView { frames: frames, files: files, request: None }
    } else {
        let top = frames.last();
        if 0 <= top.next < top.entries.len() {
            let e = top.entries[top.next];
            let path = entry_path(top.prefix, e.name);
            let rest = frames.drop_last().push(
                FrameView { prefix: top.prefix, entries: top.entries, next: top.next + 1 },
            );
            if e.mode == dir_mode() {
                WalkView { frames: rest, files: files, request: Some((e.hash, path)) }
            } else {
                advanced(rest, files.push((path, e.hash)))
            }
        } else {
            advanced(frames.drop_last(), files)
        }
    }
}

/// Each step of `advanced` leaves fewer entries to give, or as many in fewer
/// frames.
#[via_fn]
proof fn advanced_decreases(frames: Seq<FrameView>, files: Seq<(Seq<char>, Seq<char>)>) {
    if frames.len() > 0 {
        if 0 <= frames.last().next < frames.last().entries.len() {
            lemma_remaining_step(frames);
        } else {
            lemma_remaining_drop(frames);
        }
    }
}

/// The walk after the object that it asked for has been read: a tree becomes
/// the innermost frame, any other object is passed over, and the walk goes on.
/// A walk that is over stays as it is.
pub open spec fn fed(walk: WalkView, object: ObjectView) -> WalkView {
    match walk.request {
        None => walk,
        Some((_, prefix)) => match object {
            ObjectView::Tree(entries) => advanced(
                walk.frames.push(FrameView { prefix: prefix, entries: entries, next: 0 }),
                walk.files,
            ),
            _ => advanced(walk.frames, walk.files),
        },
    }
}

/// The tree of the last commit: the tree that `object` names if it is a commit.
pub fn get_head_tree(object: Option<&GitObject>) -> (r: Option<String>)
    ensures
        match object {
            Some(GitObject::Commit(c)) => r matches Some(tree) && tree@ == c.tree@,
            _ => r is None,
        },
{
    match object {
        Some(GitObject::Commit(c)) => Some(c.tree.clone()),
        _ => None,
    }
}

/// Starts the walk through the tree with the digest `tree_hash`; without a
/// tree the walk is over at once, with no files.
pub fn get_files_from_tree(tree_hash: &Option<String>) -> (r: TreeWalk)
    ensures
        r@.frames.len() == 0,
        r@.files.len() == 0,
        match tree_hash {
            Some(hash) => r@.request == Some((hash@, Seq::<char>::empty())),
            None => r@.request is None,
        },
{
    let request = match tree_hash {
        Some(hash) => Some((hash.clone(), String::new())),
        None => None,
    };
    TreeWalk { frames: Vec::new(), files: Vec::new(), request }
}

impl TreeWalk {
    /// The digest of the tree to read next, or `None` once the walk is over.
    pub fn next_hash(&self) -> (r: Option<String>)
        ensures
            match self@.request {
                Some((hash, _)) => r matches Some(h) && h@ == hash,
                None => r is None,
            },
    {
        match &self.request {
            Some((hash, _)) => Some(hash.clone()),
            None => None,
        }
    }

    /// Goes on with the frames at hand until a tree has to be read or none is
    /// left.
    fn advance(&mut self)
        ensures
            final(self)@ == advanced(old(self)@.frames, old(self)@.files),
    {
        let ghost goal = advanced(self@.frames, self@.files);
        while self.frames.len() > 0
            invariant
                goal == advanced(old(self)@.frames, old(self)@.files),
                goal == advanced(frame_views(self.frames@), digest_pairs(self.files@)),
            decreases remaining(frame_views(self.frames@)), self.frames@.len(),
        {
            let ghost frames = frame_views(self.frames@);
            let ghost files = digest_pairs(self.files@);
            let ghost before = self.frames@;
            let mut top = match self.frames.pop() {
                Some(top) => top,
                None => {
                    return ;
                },
            };
            proof {
                assert(frames.last() == top@);
                assert(frame_views(self.frames@) =~= frames.drop_last());
            }
            if top.next < top.entries.len() {
                let entry = &top.entries[top.next];
                let path = chars_to_string(
                    &normalize_separators(
                        &join_path(
                            &string_chars(top.prefix.as_str()),
                            &string_chars(entry.name.as_str()),
                        ),
                    ),
                );
                let mode = vec!['4', '0', '0', '0', '0'];
                assert(mode@ =~= dir_mode());
                let is_dir = same_chars(&string_chars(entry.mode.as_str()), &mode);
                let hash = entry.hash.clone();
                let ghost e = top@.entries[top@.next];
                assert(e == entry@);
                let ghost old_top = top@;
                top.next = top.next + 1;
                let ghost dropped = frame_views(self.frames@);
                self.frames.push(top);
                proof {
                    assert(frame_views(self.frames@) =~= dropped.push(
                        FrameView {
                            prefix: old_top.prefix,
                            entries: old_top.entries,
                            next: old_top.next + 1,
                        },
                    ));
                }
                if is_dir {
                    let ghost target = (hash@, path@);
                    self.request = Some((hash, path));
                    proof {
                        let rest = frames.drop_last().push(
                            FrameView {
                                prefix: old_top.prefix,
                                entries: old_top.entries,
                                next: old_top.next + 1,
                            },
                        );
                        assert(e.mode == dir_mode());
                        assert(target == (e.hash, entry_path(old_top.prefix, e.name)));
                        assert(goal == WalkView {
                            frames: rest,
                            files: files,
                            request: Some(target),
                        });
                        assert(self@.frames == rest);
                        assert(self@.files == files);
                        assert(self@.request == Some(target));
                    }
                    return ;
                }
                let ghost pv = (path@, hash@);
                self.files.push((path, hash));
                proof {
                    assert(digest_pairs(self.files@) =~= files.push(pv));
                    lemma_remaining_step(frames);
                }
            } else {
                proof {
                    lemma_remaining_drop(frames);
                }
            }
        }
        self.request = None;
        assert(frame_views(self.frames@) =~= Seq::<FrameView>::empty());
    }

    /// Takes in the object that was read for the last request, and goes on
    /// until the next tree has to be read or the walk is over.
    pub fn collect_files_from_tree(&mut self, object: GitObject)
        ensures
            final(self)@ == fed(old(self)@, object@),
    {
        let prefix = match &self.request {
            Some((_, prefix)) => prefix.clone(),
            None => {
                return ;
            },
        };
        match object {
            GitObject::Tree(entries) => {
                let ghost before = frame_views(self.frames@);
                let frame = Frame { prefix, entries, next: 0 };
                let ghost fv = frame@;
                self.frames.push(frame);
                assert(frame_views(self.frames@) =~= before.push(fv));
            },
            _ => {},
        }
        self.advance();
    }
}

/// Taking an entry from the innermost frame leaves one entry less to give.
proof fn lemma_remaining_step(frames: Seq<FrameView>)
    requires
        frames.len() > 0,
        0 <= frames.last().next < frames.last().entries.len(),
    ensures
        remaining(
            frames.drop_last().push(
                FrameView {
                    prefix: frames.last().prefix,
                    entries: frames.last().entries,
                    next: frames.last().next + 1,
                },
            ),
        ) < remaining(frames),
{
    let top = frames.last();
    let rest = frames.drop_last().push(
        FrameView { prefix: top.prefix, entries: top.entries, next: top.next + 1 },
    );
    assert(rest.drop_last() =~= frames.drop_last());
}

/// Dropping a frame that is used up leaves as many entries to give.
proof fn lemma_remaining_drop(frames: Seq<FrameView>)
    requires
        frames.len() > 0,
        !(0 <= frames.last().next < frames.last().entries.len()),
    ensures
        remaining(frames.drop_last()) == remaining(frames),
{
}

/// The files below the tree stored under `hash`, whose directory has the path
/// `prefix`, in the order in which a walk lists them: the objects are taken
/// from `store`, and trees may be nested `depth` deep at most. An object that
/// is no tree holds no files. `None` if a tree is missing or nested deeper.
pub open spec fn flat_tree(
    store: Map<Seq<char>, ObjectView>,
    hash: Seq<char>,
    prefix: Seq<char>,
    depth: nat,
) -> Option<Seq<(Seq<char>, Seq<char>)>>
    decreases depth, 0int, 0int,
{
    if depth == 0 || !store.contains_key(hash) {
        None
    } else {
        match store[hash] {
            ObjectView::Tree(entries) => flat_entries(store, entries, prefix, (depth - 1) as nat),
            _ => Some(Seq::empty()),
        }
    }
}

/// The files that the entries `entries` of the directory `prefix` stand for: an
/// entry with the directory mode stands for the files below its tree, any
/// other for one file with its digest.
pub open spec fn flat_entries(
    store: Map<Seq<char>, ObjectView>,
    entries: Seq<TreeEntryView>,
    prefix: Seq<char>,
    depth: nat,
) -> Option<Seq<(Seq<char>, Seq<char>)>>
    decreases depth, 1int, entries.len(),
{
    if entries.len() == 0 {
        Some(Seq::empty())
    } else {
        let e = entries[0];
        let path = entry_path(prefix, e.name);
        let first = if e.mode == dir_mode() {
            flat_tree(store, e.hash, path, depth)
        } else {
            Some(seq![(path, e.hash)])
        };
        match (first, flat_entries(store, entries.drop_first(), prefix, depth)) {
            (Some(a), Some(b)) => Some(a + b),
            _ => None,
        }
    }
}

/// The walk after at most `steps` of its requests have been answered from
/// `store`; it stops early when it is over or asks for what is not there.
pub open spec fn run(walk: WalkView, store: Map<Seq<char>, ObjectView>, steps: nat) -> WalkView
    decreases steps,
{
    if steps == 0 {
        walk
    } else {
        match walk.request {
            Some((hash, _)) => if store.contains_key(hash) {
                run(fed(walk, store[hash]), store, (steps - 1) as nat)
            } else {
                walk
            },
            None => walk,
        }
    }
}

/// A walk at its start, about to read the tree stored under `hash`.
pub open spec fn started(hash: Seq<char>) -> WalkView {
    WalkView {
        frames: Seq::empty(),
        files: Seq::empty(),
        request: Some((hash, Seq::empty())),
    }
}

/// Running on after a run is one longer run.
proof fn lemma_run_add(walk: WalkView, store: Map<Seq<char>, ObjectView>, a: nat, b: nat)
    ensures
        run(walk, store, a + b) == run(run(walk, store, a), store, b),
    decreases a,
{
    if a > 0 {
        match walk.request {
            Some((hash, _)) => {
                if store.contains_key(hash) {
                    lemma_run_add(fed(walk, store[hash]), store, (a - 1) as nat, b);
                } else {
                    lemma_run_stuck(walk, store, b);
                    lemma_run_stuck(walk, store, a + b);
                }
            },
            None => {
                lemma_run_stuck(walk, store, b);
                lemma_run_stuck(walk, store, a + b);
            },
        }
    }
}

/// A walk that is over, or asks for what is not there, stays as it is.
proof fn lemma_run_stuck(walk: WalkView, store: Map<Seq<char>, ObjectView>, steps: nat)
    requires
        match walk.request {
            Some((hash, _)) => !store.contains_key(hash),
            None => true,
        },
    ensures
        run(walk, store, steps) == walk,
{
}

/// From inside a frame the walk comes, in some number of steps, to where the
/// frame is used up and the files of its remaining entries are on the list.
proof fn lemma_walk_entries(
    store: Map<Seq<char>, ObjectView>,
    frames: Seq<FrameView>,
    files: Seq<(Seq<char>, Seq<char>)>,
    prefix: Seq<char>,
    entries: Seq<TreeEntryView>,
    next: int,
    depth: nat,
) -> (steps: nat)
    requires
        0 <= next <= entries.len(),
        flat_entries(store, entries.skip(next), prefix, depth) is Some,
    ensures
        run(
            advanced(
                frames.push(FrameView { prefix: prefix, entries: entries, next: next }),
                files,
            ),
            store,
            steps,
        ) == advanced(frames, files + flat_entries(store, entries.skip(next), prefix, depth)->0),
    decreases depth, 1int, entries.len() - next,
{
    let frame = FrameView { prefix: prefix, entries: entries, next: next };
    let stack = frames.push(frame);
    let left = entries.skip(next);
    assert(stack.drop_last() =~= frames);
    assert(stack.last() == frame);
    if next == entries.len() {
        assert(left =~= Seq::<TreeEntryView>::empty());
        assert(files + Seq::<(Seq<char>, Seq<char>)>::empty() =~= files);
        0
    } else {
        let e = entries[next];
        let path = entry_path(prefix, e.name);
        let after = FrameView { prefix: prefix, entries: entries, next: next + 1 };
        assert(left[0] == e);
        assert(left.drop_first() =~= entries.skip(next + 1));
        let tail = flat_entries(store, entries.skip(next + 1), prefix, depth)->0;
        if e.mode == dir_mode() {
            let below = flat_tree(store, e.hash, path, depth)->0;
            let asking = WalkView {
                frames: frames.push(after),
                files: files,
                request: Some((e.hash, path)),
            };
            assert(advanced(stack, files) == asking);
            let down = lemma_walk_tree(store, frames.push(after), files, e.hash, path, depth);
            let on = lemma_walk_entries(
                store,
                frames,
                files + below,
                prefix,
                entries,
                next + 1,
                depth,
            );
            lemma_run_add(asking, store, down, on);
            assert(files + below + tail =~= files + (below + tail));
            down + on
        } else {
            let on = lemma_walk_entries(
                store,
                frames,
                files.push((path, e.hash)),
                prefix,
                entries,
                next + 1,
                depth,
            );
            assert(advanced(stack, files) == advanced(
                frames.push(after),
                files.push((path, e.hash)),
            ));
            assert(files.push((path, e.hash)) + tail =~= files + (seq![(path, e.hash)] + tail));
            on
        }
    }
}

/// From the request for a tree the walk comes, in some number of steps, to
/// where the files below the tree are on the list and the frames are as they
/// were.
proof fn lemma_walk_tree(
    store: Map<Seq<char>, ObjectView>,
    frames: Seq<FrameView>,
    files: Seq<(Seq<char>, Seq<char>)>,
    hash: Seq<char>,
    prefix: Seq<char>,
    depth: nat,
) -> (steps: nat)
    requires
        flat_tree(store, hash, prefix, depth) is Some,
    ensures
        run(
            WalkView { frames: frames, files: files, request: Some((hash, prefix)) },
            store,
            steps,
        ) == advanced(frames, files + flat_tree(store, hash, prefix, depth)->0),
    decreases depth, 0int, 0int,
{
    let asking = WalkView { frames: frames, files: files, request: Some((hash, prefix)) };
    match store[hash] {
        ObjectView::Tree(entries) => {
            assert(entries.skip(0) =~= entries);
            let inside = lemma_walk_entries(
                store,
                frames,
                files,
                prefix,
                entries,
                0,
                (depth - 1) as nat,
            );
            assert(run(asking, store, inside + 1) == run(
                fed(asking, store[hash]),
                store,
                inside,
            ));
            inside + 1
        },
        _ => {
            assert(files + Seq::<(Seq<char>, Seq<char>)>::empty() =~= files);
            assert(run(asking, store, 1) == run(fed(asking, store[hash]), store, 0));
            1
        },
    }
}

/// A walk that has each of its requests answered from a store ends, after
/// `steps` answers, with the files below the tree it started from on its list,
/// in the order of the entries, each directory in the place of its entry.
pub proof fn law_walk_flattens(
    store: Map<Seq<char>, ObjectView>,
    hash: Seq<char>,
    depth: nat,
) -> (steps: nat)
    requires
        flat_tree(store, hash, Seq::empty(), depth) is Some,
    ensures
        run(started(hash), store, steps) == (WalkView {
            frames: Seq::empty(),
            files: flat_tree(store, hash, Seq::empty(), depth)->0,
            request: None,
        }),
{
    let steps = lemma_walk_tree(store, Seq::empty(), Seq::empty(), hash, Seq::empty(), depth);
    let list = flat_tree(store, hash, Seq::empty(), depth)->0;
    assert(Seq::<(Seq<char>, Seq<char>)>::empty() + list =~= list);
    steps
}

} // verus!
