//! A whole walk over a tree, as a model: the steps of a `Walker` put one
//! after the other, with the listings taken from a tree that is given once
//! and for all. The law proved of it is the one the tool stands on: a walk
//! that comes to its end hands out exactly the files that are not ignored
//! and lie in no ignored directory, each judged under the scopes of the
//! directories above it and of no other.

use crate::paths::join_spec;
use crate::scope::ScopeView;
use crate::walker::{
    entered, frames_for, kept, kept_entry_at, kept_paths, lemma_entered_is_well_stacked,
    lemma_kept_paths_complete, lemma_kept_paths_sound, lemma_skipped_is_well_stacked,
    root_is_next, scopes_inside, scopes_of, skipped, start, well_stacked, EntryKind, EntryView,
    FrameView, WalkerView,
};
use vstd::prelude::*;

verus! {

/// What listing a directory gives.
pub struct Listing {
    /// The lines of each ignore file that the directory holds.
    pub ignore_files: Seq<Seq<Seq<char>>>,
    /// The entries of the directory.
    pub entries: Seq<EntryView>,
}

/// The files handed out by the next `steps` steps of a walk in state `w`
/// over `tree`, which maps each directory that can be listed to its
/// listing. A directory that cannot be listed is given up; the walk ends
/// when nothing is pending or when its root is given up.
pub open spec fn handed_out(w: WalkerView, tree: Map<Seq<char>, Listing>, steps: nat) -> Seq<
    Seq<char>,
>
    decreases steps,
{
    if steps == 0 || w.pending.len() == 0 {
        Seq::empty()
    } else {
        let dir = w.pending.last().dir;
        if tree.dom().contains(dir) {
            let listing = tree[dir];
            kept_paths(
                dir,
                listing.entries,
                EntryKind::File,
                scopes_inside(w, listing.ignore_files),
            ) + handed_out(
                entered(w, listing.ignore_files, listing.entries),
                tree,
                (steps - 1) as nat,
            )
        } else if root_is_next(w) {
            Seq::empty()
        } else {
            handed_out(skipped(w), tree, (steps - 1) as nat)
        }
    }
}

/// The scopes of the directories of `way`, from the first to the last.
pub open spec fn scopes_along(tree: Map<Seq<char>, Listing>, way: Seq<Seq<char>>) -> Seq<
    ScopeView,
>
    decreases way.len(),
{
    if way.len() == 0 {
        Seq::empty()
    } else {
        scopes_along(tree, way.drop_last()) + scopes_of(way.last(), tree[way.last()].ignore_files)
    }
}

/// Whether `way` leads from `root` down the tree through directories none
/// of which is ignored: it starts with `root`, and each further directory
/// is an entry of the one before it, which can be listed, and is not
/// ignored under the scopes of the directories before it.
pub open spec fn is_way(tree: Map<Seq<char>, Listing>, root: Seq<char>, way: Seq<Seq<char>>) -> bool
    decreases way.len(),
{
    if way.len() == 0 {
        false
    } else if way.len() == 1 {
        way[0] == root
    } else {
        let above = way.drop_last();
        &&& is_way(tree, root, above)
        &&& tree.dom().contains(above.last())
        &&& kept_entry_at(
            above.last(),
            tree[above.last()].entries,
            EntryKind::Dir,
            scopes_along(tree, above),
            way.last(),
        )
    }
}

/// Whether `file` is a file at the end of `way` that is not ignored under
/// the scopes of the directories of `way`.
pub open spec fn found_at(
    tree: Map<Seq<char>, Listing>,
    root: Seq<char>,
    way: Seq<Seq<char>>,
    file: Seq<char>,
) -> bool {
    &&& is_way(tree, root, way)
    &&& tree.dom().contains(way.last())
    &&& kept_entry_at(
        way.last(),
        tree[way.last()].entries,
        EntryKind::File,
        scopes_along(tree, way),
        file,
    )
}

/// Whether `file` is a file of the tree below `root` that is not ignored
/// and lies in no ignored directory.
pub open spec fn found(tree: Map<Seq<char>, Listing>, root: Seq<char>, file: Seq<char>) -> bool {
    exists|way: Seq<Seq<char>>| found_at(tree, root, way, file)
}

/// Whether `way` leads to the pending directory `frame`, and the scopes
/// that `frame` counts as above it are those of the directories before it
/// on `way`.
pub open spec fn leads_to(
    w: WalkerView,
    tree: Map<Seq<char>, Listing>,
    root: Seq<char>,
    way: Seq<Seq<char>>,
    frame: FrameView,
) -> bool {
    &&& is_way(tree, root, way)
    &&& way.last() == frame.dir
    &&& frame.depth <= w.scopes.len()
    &&& w.scopes.take(frame.depth as int) == scopes_along(tree, way.drop_last())
}

/// Whether some way leads to the pending directory `frame`.
pub open spec fn has_way(
    w: WalkerView,
    tree: Map<Seq<char>, Listing>,
    root: Seq<char>,
    frame: FrameView,
) -> bool {
    exists|way: Seq<Seq<char>>| leads_to(w, tree, root, way, frame)
}

/// Whether the walk is on course: its state is well stacked, and a way
/// leads to every pending directory.
pub open spec fn on_course(w: WalkerView, tree: Map<Seq<char>, Listing>, root: Seq<char>) -> bool {
    &&& well_stacked(w)
    &&& forall|i: int| 0 <= i < w.pending.len() ==> has_way(w, tree, root, #[trigger] w.pending[i])
}

/// A walk starts on course.
pub proof fn lemma_start_is_on_course(tree: Map<Seq<char>, Listing>, root: Seq<char>)
    ensures
        on_course(start(root), tree, root),
{
    let w = start(root);
    let way = seq![root];
    assert(way.drop_last() =~= Seq::<Seq<char>>::empty());
    assert(w.scopes.take(0) =~= Seq::<ScopeView>::empty());
    assert(leads_to(w, tree, root, way, w.pending[0]));
}

/// Giving up a directory other than the root keeps the walk on course.
pub proof fn lemma_skipped_is_on_course(
    w: WalkerView,
    tree: Map<Seq<char>, Listing>,
    root: Seq<char>,
)
    requires
        on_course(w, tree, root),
    ensures
        on_course(skipped(w), tree, root),
{
    let after = skipped(w);
    lemma_skipped_is_well_stacked(w);
    if w.pending.len() > 0 {
        assert forall|i: int| 0 <= i < after.pending.len() implies has_way(
            after,
            tree,
            root,
            #[trigger] after.pending[i],
        ) by {
            assert(after.pending[i] == w.pending[i]);
            assert(has_way(w, tree, root, w.pending[i]));
            let way = choose|way: Seq<Seq<char>>| leads_to(w, tree, root, way, w.pending[i]);
            assert(leads_to(after, tree, root, way, after.pending[i]));
        }
    }
}

/// Listing the next directory as the tree has it keeps the walk on course,
/// and every file handed out is found at the end of a way through the tree.
pub proof fn lemma_entered_is_on_course(
    w: WalkerView,
    tree: Map<Seq<char>, Listing>,
    root: Seq<char>,
)
    requires
        on_course(w, tree, root),
        w.pending.len() > 0,
        tree.dom().contains(w.pending.last().dir),
    ensures
        on_course(
            entered(
                w,
                tree[w.pending.last().dir].ignore_files,
                tree[w.pending.last().dir].entries,
            ),
            tree,
            root,
        ),
        forall|k: int|
            0 <= k < kept_paths(
                w.pending.last().dir,
                tree[w.pending.last().dir].entries,
                EntryKind::File,
                scopes_inside(w, tree[w.pending.last().dir].ignore_files),
            ).len() ==> found(
                tree,
                root,
                #[trigger] kept_paths(
                    w.pending.last().dir,
                    tree[w.pending.last().dir].entries,
                    EntryKind::File,
                    scopes_inside(w, tree[w.pending.last().dir].ignore_files),
                )[k],
            ),
{
    let top = w.pending.last();
    let listing = tree[top.dir];
    let inside = scopes_inside(w, listing.ignore_files);
    let after = entered(w, listing.ignore_files, listing.entries);
    let rest = w.pending.drop_last();
    let files = kept_paths(top.dir, listing.entries, EntryKind::File, inside);
    let dirs = kept_paths(top.dir, listing.entries, EntryKind::Dir, inside);

    assert(top == w.pending[w.pending.len() - 1]);
    assert(has_way(w, tree, root, top));
    let way = choose|way: Seq<Seq<char>>| leads_to(w, tree, root, way, top);
    assert(way.len() > 0);
    assert(inside == scopes_along(tree, way));

    lemma_kept_paths_sound(top.dir, listing.entries, EntryKind::File, inside);
    assert forall|k: int| 0 <= k < files.len() implies found(tree, root, #[trigger] files[k]) by {
        assert(found_at(tree, root, way, files[k]));
    }

    lemma_entered_is_well_stacked(w, listing.ignore_files, listing.entries);
    lemma_kept_paths_sound(top.dir, listing.entries, EntryKind::Dir, inside);
    assert(after.scopes == inside);
    assert forall|i: int| 0 <= i < after.pending.len() implies has_way(
        after,
        tree,
        root,
        #[trigger] after.pending[i],
    ) by {
        if i < rest.len() {
            assert(after.pending[i] == w.pending[i]);
            assert(has_way(w, tree, root, w.pending[i]));
            let to = choose|to: Seq<Seq<char>>| leads_to(w, tree, root, to, w.pending[i]);
            assert(w.pending[i].depth <= top.depth);
            assert(after.scopes.take(w.pending[i].depth as int) =~= w.scopes.take(
                w.pending[i].depth as int,
            ));
            assert(leads_to(after, tree, root, to, after.pending[i]));
        } else {
            let d = dirs[i - rest.len()];
            assert(after.pending[i] == FrameView { dir: d, depth: inside.len(), is_root: false });
            let to = way.push(d);
            assert(to.drop_last() =~= way);
            assert(kept_entry_at(top.dir, listing.entries, EntryKind::Dir, inside, d));
            assert(is_way(tree, root, to));
            assert(after.scopes.take(inside.len() as int) =~= inside);
            assert(leads_to(after, tree, root, to, after.pending[i]));
        }
    }
}

/// Whatever a walk that is on course hands out is a file of the tree that
/// is not ignored and lies in no ignored directory.
pub proof fn lemma_walk_hands_out_only_what_is_found(
    w: WalkerView,
    tree: Map<Seq<char>, Listing>,
    root: Seq<char>,
    steps: nat,
)
    requires
        on_course(w, tree, root),
    ensures
        forall|k: int|
            0 <= k < handed_out(w, tree, steps).len() ==> found(
                tree,
                root,
                #[trigger] handed_out(w, tree, steps)[k],
            ),
    decreases steps,
{
    if steps > 0 && w.pending.len() > 0 {
        let dir = w.pending.last().dir;
        if tree.dom().contains(dir) {
            let listing = tree[dir];
            let inside = scopes_inside(w, listing.ignore_files);
            let files = kept_paths(dir, listing.entries, EntryKind::File, inside);
            let after = entered(w, listing.ignore_files, listing.entries);
            lemma_entered_is_on_course(w, tree, root);
            lemma_walk_hands_out_only_what_is_found(after, tree, root, (steps - 1) as nat);
            let later = handed_out(after, tree, (steps - 1) as nat);
            let all = handed_out(w, tree, steps);
            assert(all == files + later);
            assert forall|k: int| 0 <= k < all.len() implies found(
                tree,
                root,
                #[trigger] all[k],
            ) by {
                if k < files.len() {
                    assert(all[k] == files[k]);
                } else {
                    assert(all[k] == later[k - files.len()]);
                }
            }
        } else if !root_is_next(w) {
            lemma_skipped_is_on_course(w, tree, root);
            lemma_walk_hands_out_only_what_is_found(skipped(w), tree, root, (steps - 1) as nat);
            assert(handed_out(w, tree, steps) == handed_out(skipped(w), tree, (steps - 1) as nat));
        }
    }
}

/// A walk from `root` hands out only files of the tree below `root` that
/// are not ignored and lie in no ignored directory.
pub proof fn lemma_walk_is_sound(tree: Map<Seq<char>, Listing>, root: Seq<char>, steps: nat)
    ensures
        forall|k: int|
            0 <= k < handed_out(start(root), tree, steps).len() ==> found(
                tree,
                root,
                #[trigger] handed_out(start(root), tree, steps)[k],
            ),
{
    lemma_start_is_on_course(tree, root);
    lemma_walk_hands_out_only_what_is_found(start(root), tree, root, steps);
}

/// Whether a walk in state `w` over `tree` comes to its end within `steps`
/// steps: nothing is left pending, or its root has been given up.
pub open spec fn ends_within(w: WalkerView, tree: Map<Seq<char>, Listing>, steps: nat) -> bool
    decreases steps,
{
    if w.pending.len() == 0 {
        true
    } else if steps == 0 {
        false
    } else {
        let dir = w.pending.last().dir;
        if tree.dom().contains(dir) {
            ends_within(
                entered(w, tree[dir].ignore_files, tree[dir].entries),
                tree,
                (steps - 1) as nat,
            )
        } else if root_is_next(w) {
            true
        } else {
            ends_within(skipped(w), tree, (steps - 1) as nat)
        }
    }
}

/// Whether the directory that the walk started from, if it is pending, is
/// the only one pending.
pub open spec fn root_is_alone(w: WalkerView) -> bool {
    forall|i: int|
        0 <= i < w.pending.len() && (#[trigger] w.pending[i]).is_root ==> w.pending.len() == 1
}

/// A way starts at the root.
pub proof fn lemma_way_starts_at_root(
    tree: Map<Seq<char>, Listing>,
    root: Seq<char>,
    way: Seq<Seq<char>>,
)
    requires
        is_way(tree, root, way),
    ensures
        way.len() > 0,
        way[0] == root,
    decreases way.len(),
{
    if way.len() > 1 {
        lemma_way_starts_at_root(tree, root, way.drop_last());
    }
}

/// Each directory of a way but the last can be listed, and the next one is
/// an entry of it that is not ignored under the scopes down to it.
pub proof fn lemma_way_step(
    tree: Map<Seq<char>, Listing>,
    root: Seq<char>,
    way: Seq<Seq<char>>,
    m: int,
)
    requires
        is_way(tree, root, way),
        0 <= m < way.len() - 1,
    ensures
        tree.dom().contains(way[m]),
        kept_entry_at(
            way[m],
            tree[way[m]].entries,
            EntryKind::Dir,
            scopes_along(tree, way.take(m + 1)),
            way[m + 1],
        ),
    decreases way.len(),
{
    let above = way.drop_last();
    if m == way.len() - 2 {
        assert(above =~= way.take(m + 1));
    } else {
        lemma_way_step(tree, root, above, m);
        assert(above.take(m + 1) =~= way.take(m + 1));
    }
}

/// A file at the end of a way that passes through a pending directory,
/// with the scopes down to that directory in their place on the stack, is
/// handed out by a walk that comes to its end.
proof fn lemma_walk_reaches(
    w: WalkerView,
    tree: Map<Seq<char>, Listing>,
    root: Seq<char>,
    steps: nat,
    way: Seq<Seq<char>>,
    k: int,
    i: int,
    file: Seq<char>,
)
    requires
        well_stacked(w),
        root_is_alone(w),
        ends_within(w, tree, steps),
        found_at(tree, root, way, file),
        0 <= k < way.len(),
        0 <= i < w.pending.len(),
        w.pending[i].dir == way[k],
        w.scopes.take(w.pending[i].depth as int) == scopes_along(tree, way.take(k)),
    ensures
        handed_out(w, tree, steps).contains(file),
    decreases steps,
{
    let top = w.pending.last();
    let rest = w.pending.drop_last();
    let last = w.pending.len() - 1;
    assert(top == w.pending[last]);
    if k < way.len() - 1 {
        lemma_way_step(tree, root, way, k);
    } else {
        assert(way[k] == way.last());
    }
    assert(tree.dom().contains(way[k]));
    if tree.dom().contains(top.dir) {
        let listing = tree[top.dir];
        let inside = scopes_inside(w, listing.ignore_files);
        let files = kept_paths(top.dir, listing.entries, EntryKind::File, inside);
        let dirs = kept_paths(top.dir, listing.entries, EntryKind::Dir, inside);
        let after = entered(w, listing.ignore_files, listing.entries);
        let later = handed_out(after, tree, (steps - 1) as nat);
        let all = handed_out(w, tree, steps);
        assert(all == files + later);
        lemma_entered_is_well_stacked(w, listing.ignore_files, listing.entries);
        assert(root_is_alone(after)) by {
            assert forall|j: int| 0 <= j < after.pending.len() && (
            #[trigger] after.pending[j]).is_root implies after.pending.len() == 1 by {
                if j < rest.len() {
                    assert(after.pending[j] == w.pending[j]);
                }
            }
        }
        if i == last {
            assert(way.take(k + 1).drop_last() =~= way.take(k));
            assert(way.take(k + 1).last() == way[k]);
            assert(inside == scopes_along(tree, way.take(k + 1)));
            if k == way.len() - 1 {
                assert(way.take(k + 1) =~= way);
                let j = choose|j: int|
                    0 <= j < listing.entries.len() && kept(
                        top.dir,
                        #[trigger] listing.entries[j],
                        EntryKind::File,
                        inside,
                    ) && file == join_spec(top.dir, listing.entries[j].name);
                lemma_kept_paths_complete(top.dir, listing.entries, EntryKind::File, inside, j);
                let at = choose|at: int| 0 <= at < files.len() && files[at] == file;
                assert(all[at] == file);
            } else {
                let j = choose|j: int|
                    0 <= j < listing.entries.len() && kept(
                        top.dir,
                        #[trigger] listing.entries[j],
                        EntryKind::Dir,
                        inside,
                    ) && way[k + 1] == join_spec(top.dir, listing.entries[j].name);
                lemma_kept_paths_complete(top.dir, listing.entries, EntryKind::Dir, inside, j);
                let d = choose|d: int| 0 <= d < dirs.len() && dirs[d] == way[k + 1];
                let next = rest.len() + d;
                assert(after.pending[next] == frames_for(dirs, inside.len())[d]);
                assert(after.scopes.take(inside.len() as int) =~= inside);
                lemma_walk_reaches(after, tree, root, (steps - 1) as nat, way, k + 1, next, file);
                let at = choose|at: int| 0 <= at < later.len() && later[at] == file;
                assert(all[files.len() + at] == file);
            }
        } else {
            assert(after.pending[i] == w.pending[i]);
            assert(w.pending[i].depth <= top.depth);
            assert(after.scopes.take(w.pending[i].depth as int) =~= w.scopes.take(
                w.pending[i].depth as int,
            ));
            lemma_walk_reaches(after, tree, root, (steps - 1) as nat, way, k, i, file);
            let at = choose|at: int| 0 <= at < later.len() && later[at] == file;
            assert(all[files.len() + at] == file);
        }
    } else {
        assert(i < last);
        assert(!root_is_next(w));
        let after = skipped(w);
        lemma_skipped_is_well_stacked(w);
        assert(after.pending[i] == w.pending[i]);
        assert(root_is_alone(after)) by {
            assert forall|j: int| 0 <= j < after.pending.len() && (
            #[trigger] after.pending[j]).is_root implies after.pending.len() == 1 by {
                assert(after.pending[j] == w.pending[j]);
            }
        }
        lemma_walk_reaches(after, tree, root, (steps - 1) as nat, way, k, i, file);
    }
}

/// A walk from `root` that comes to its end hands out every file of the
/// tree below `root` that is not ignored and lies in no ignored directory.
pub proof fn lemma_walk_is_complete(
    tree: Map<Seq<char>, Listing>,
    root: Seq<char>,
    steps: nat,
    file: Seq<char>,
)
    requires
        ends_within(start(root), tree, steps),
        found(tree, root, file),
    ensures
        handed_out(start(root), tree, steps).contains(file),
{
    let w = start(root);
    let way = choose|way: Seq<Seq<char>>| found_at(tree, root, way, file);
    lemma_way_starts_at_root(tree, root, way);
    lemma_start_is_on_course(tree, root);
    assert(way.take(0) =~= Seq::<Seq<char>>::empty());
    assert(w.scopes.take(0) =~= Seq::<ScopeView>::empty());
    lemma_walk_reaches(w, tree, root, steps, way, 0, 0, file);
}

/// A walk from `root` that comes to its end hands out exactly the files of
/// the tree below `root` that are not ignored and lie in no ignored
/// directory.
pub proof fn lemma_walk_hands_out_what_is_found(
    tree: Map<Seq<char>, Listing>,
    root: Seq<char>,
    steps: nat,
    file: Seq<char>,
)
    requires
        ends_within(start(root), tree, steps),
    ensures
        handed_out(start(root), tree, steps).contains(file) <==> found(tree, root, file),
{
    lemma_walk_is_sound(tree, root, steps);
    if found(tree, root, file) {
        lemma_walk_is_complete(tree, root, steps, file);
    }
    if handed_out(start(root), tree, steps).contains(file) {
        let all = handed_out(start(root), tree, steps);
        let at = choose|at: int| 0 <= at < all.len() && all[at] == file;
        assert(found(tree, root, all[at]));
    }
}

} // verus!
