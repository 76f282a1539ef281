//! The walker's decisions. The walker itself lists directories and reads
//! ignore files; what it finds is handed to a `Walker`, which keeps the
//! stack of scopes and the directories still to be visited, and answers
//! with the files to search.
//!
//! Directories are visited depth first. Each pending directory remembers how
//! many scopes lie above it, so the scopes of a finished subtree are dropped
//! before the next directory is entered, and the scopes in force at any time
//! are those of the directories on the way from the root to the directory
//! being listed.
//!
//! Each ignore file of a directory gives a scope of its own. They are put in
//! force in the order in which they are handed in, so the file handed in
//! last is the nearest and is asked first.

use crate::paths::{
    component, in_dir_spec, is_component, join, join_spec, lemma_in_dir_reflexive,
    lemma_in_dir_transitive, lemma_join_in_dir,
};
use crate::resolver::{ignored, ignored_spec, scope_views};
use crate::scope::{rejected_lines, scope_of, texts, GitIgnore, ScopeView};
use vstd::prelude::*;

verus! {

/// What an entry of a directory is.
#[derive(Debug, Clone, Copy, PartialEq, Eq, Structural)]
pub enum EntryKind {
    /// A file, to be searched.
    File,
    /// A directory, to be descended into.
    Dir,
    /// Neither; passed over.
    Other,
}

/// An entry of a directory, as the listing gives it.
#[derive(Debug)]
pub struct Entry {
    /// The entry's name, one path component. An entry whose name is empty,
    /// is `.` or holds a separator is passed over.
    pub name: String,
    /// What the entry is.
    pub kind: EntryKind,
}

/// An entry as plain data.
pub struct EntryView {
    /// The entry's name.
    pub name: Seq<char>,
    /// What the entry is.
    pub kind: EntryKind,
}

impl View for Entry {
    type V = EntryView;

    open spec fn view(&self) -> EntryView {
        EntryView { name: self.name@, kind: self.kind }
    }
}

/// A directory still to be visited, as plain data.
pub struct FrameView {
    /// The directory's path.
    pub dir: Seq<char>,
    /// How many scopes, from the bottom of the stack, lie above `dir`.
    pub depth: nat,
    /// Whether `dir` is the directory that the walk started from.
    pub is_root: bool,
}

/// The state of a walk, as plain data.
pub struct WalkerView {
    /// The scopes in force, the nearest one last.
    pub scopes: Seq<ScopeView>,
    /// The directories still to be visited; the last one is next.
    pub pending: Seq<FrameView>,
}

/// Entries as plain data.
pub open spec fn entry_views(entries: Seq<Entry>) -> Seq<EntryView> {
    Seq::new(entries.len(), |i: int| entries[i]@)
}

/// The lines of several files as plain text.
pub open spec fn file_texts(files: Seq<Vec<String>>) -> Seq<Seq<Seq<char>>> {
    Seq::new(files.len(), |i: int| texts(files[i]@))
}

/// The scopes that the ignore files of `dir` state, one for each file.
pub open spec fn scopes_of(dir: Seq<char>, files: Seq<Seq<Seq<char>>>) -> Seq<ScopeView> {
    Seq::new(files.len(), |i: int| scope_of(dir, files[i]))
}

/// For each ignore file, the positions of the lines that were rejected.
pub open spec fn rejected_of(files: Seq<Seq<Seq<char>>>) -> Seq<Seq<usize>> {
    Seq::new(files.len(), |i: int| rejected_lines(files[i]))
}

/// Whether the entry is kept as something of the given kind: it is of that
/// kind, its name is the name of an entry, and it is not ignored under
/// `scopes`.
pub open spec fn kept(
    dir: Seq<char>,
    entry: EntryView,
    kind: EntryKind,
    scopes: Seq<ScopeView>,
) -> bool {
    &&& entry.kind == kind
    &&& is_component(entry.name)
    &&& !ignored_spec(join_spec(dir, entry.name), entry.kind == EntryKind::Dir, scopes)
}

/// The paths of the entries of `dir` that are kept as `kind`, in the order
/// of the listing.
pub open spec fn kept_paths(
    dir: Seq<char>,
    entries: Seq<EntryView>,
    kind: EntryKind,
    scopes: Seq<ScopeView>,
) -> Seq<Seq<char>>
    decreases entries.len(),
{
    if entries.len() == 0 {
        Seq::empty()
    } else {
        let before = kept_paths(dir, entries.drop_last(), kind, scopes);
        if kept(dir, entries.last(), kind, scopes) {
            before.push(join_spec(dir, entries.last().name))
        } else {
            before
        }
    }
}

/// The scopes in force while the next pending directory is listed: those
/// above it, then its own.
pub open spec fn scopes_inside(w: WalkerView, files: Seq<Seq<Seq<char>>>) -> Seq<ScopeView> {
    let top = w.pending.last();
    w.scopes.take(top.depth as int) + scopes_of(top.dir, files)
}

/// The state after the next pending directory has been listed: its scopes
/// are in force, it is no longer pending, and the directories in it that
/// are not ignored are pending below the new scopes.
pub open spec fn entered(
    w: WalkerView,
    files: Seq<Seq<Seq<char>>>,
    entries: Seq<EntryView>,
) -> WalkerView {
    let top = w.pending.last();
    let scopes = scopes_inside(w, files);
    let dirs = kept_paths(top.dir, entries, EntryKind::Dir, scopes);
    WalkerView {
        scopes,
        pending: w.pending.drop_last() + frames_for(dirs, scopes.len()),
    }
}

/// A directory still to be visited.
#[derive(Debug)]
struct Frame {
    dir: String,
    depth: usize,
    is_root: bool,
}

impl View for Frame {
    type V = FrameView;

    closed spec fn view(&self) -> FrameView {
        FrameView { dir: self.dir@, depth: self.depth as nat, is_root: self.is_root }
    }
}

/// What listing one directory gave.
#[derive(Debug)]
pub struct Visit {
    /// The files to search, in the order of the listing.
    pub files: Vec<String>,
    /// For each ignore file handed in, the positions, counted from 0, of
    /// the lines that were left out because the matcher rejects them.
    pub rejected: Vec<Vec<usize>>,
}

/// What a visit gave, as plain data.
pub struct VisitView {
    /// The files to search.
    pub files: Seq<Seq<char>>,
    /// For each ignore file, the positions of the lines left out.
    pub rejected: Seq<Seq<usize>>,
}

impl View for Visit {
    type V = VisitView;

    open spec fn view(&self) -> VisitView {
        VisitView {
            files: Seq::new(self.files@.len(), |i: int| self.files@[i]@),
            rejected: Seq::new(self.rejected@.len(), |i: int| self.rejected@[i]@),
        }
    }
}

/// Whether the scopes form a chain from the root down: each was loaded
/// from the directory of the one before it or from a directory below that.
pub open spec fn nested(scopes: Seq<ScopeView>) -> bool {
    forall|i: int, j: int|
        0 <= i <= j < scopes.len() ==> in_dir_spec(
            (#[trigger] scopes[i]).root,
            (#[trigger] scopes[j]).root,
        )
}

/// Whether the scopes form a chain from the root down, every pending
/// directory lies in the directory of each scope that it counts as above
/// it, and bottom-up no pending directory counts more scopes than the next.
pub open spec fn well_stacked(w: WalkerView) -> bool {
    &&& nested(w.scopes)
    &&& forall|i: int|
        0 <= i < w.pending.len() ==> (#[trigger] w.pending[i]).depth <= w.scopes.len()
    &&& forall|i: int, j: int|
        0 <= i <= j < w.pending.len() ==> (#[trigger] w.pending[i]).depth <= (
        #[trigger] w.pending[j]).depth
    &&& forall|i: int, k: int|
        0 <= i < w.pending.len() && 0 <= k < w.pending[i].depth ==> in_dir_spec(
            (#[trigger] w.scopes[k]).root,
            (#[trigger] w.pending[i]).dir,
        )
}

/// Pending directories as plain data.
spec fn frame_views(pending: Seq<Frame>) -> Seq<FrameView> {
    Seq::new(pending.len(), |i: int| pending[i]@)
}

/// The state that a walk from `root` starts in: no scope in force, and
/// `root` to be listed.
pub open spec fn start(root: Seq<char>) -> WalkerView {
    WalkerView {
        scopes: Seq::empty(),
        pending: seq![FrameView { dir: root, depth: 0, is_root: true }],
    }
}

/// Whether the directory to be listed next is the one the walk started
/// from.
pub open spec fn root_is_next(w: WalkerView) -> bool {
    w.pending.len() > 0 && w.pending.last().is_root
}

/// The state after the next pending directory has been given up; an
/// empty state stays as it is.
pub open spec fn skipped(w: WalkerView) -> WalkerView {
    if w.pending.len() == 0 {
        w
    } else {
        WalkerView { scopes: w.scopes, pending: w.pending.drop_last() }
    }
}

/// Whether `dir` lies in the directory of every scope in force.
pub open spec fn inside_all(scopes: Seq<ScopeView>, dir: Seq<char>) -> bool {
    forall|k: int| 0 <= k < scopes.len() ==> in_dir_spec((#[trigger] scopes[k]).root, dir)
}

/// The frames for `dirs`, each counting `depth` scopes above it.
pub open spec fn frames_for(dirs: Seq<Seq<char>>, depth: nat) -> Seq<FrameView> {
    Seq::new(dirs.len(), |i: int| FrameView { dir: dirs[i], depth, is_root: false })
}

/// Taking the next pending directory off and dropping the scopes that are
/// not above it leaves a state that is well stacked, with every scope above
/// that directory.
proof fn lemma_leave(w: WalkerView)
    requires
        well_stacked(w),
        w.pending.len() > 0,
    ensures
        well_stacked(
            WalkerView {
                scopes: w.scopes.take(w.pending.last().depth as int),
                pending: w.pending.drop_last(),
            },
        ),
        inside_all(w.scopes.take(w.pending.last().depth as int), w.pending.last().dir),
{
    let top = w.pending.last();
    let after = WalkerView {
        scopes: w.scopes.take(top.depth as int),
        pending: w.pending.drop_last(),
    };
    assert(top == w.pending[w.pending.len() - 1]);
    assert forall|i: int| 0 <= i < after.pending.len() implies (#[trigger] after.pending[i]).depth
        <= after.scopes.len() by {
        assert(after.pending[i] == w.pending[i]);
    }
    assert forall|i: int, j: int| 0 <= i <= j < after.pending.len() implies (
    #[trigger] after.pending[i]).depth <= (#[trigger] after.pending[j]).depth by {
        assert(after.pending[i] == w.pending[i]);
        assert(after.pending[j] == w.pending[j]);
    }
    assert forall|i: int, k: int|
        0 <= i < after.pending.len() && 0 <= k < after.pending[i].depth implies in_dir_spec(
        (#[trigger] after.scopes[k]).root,
        (#[trigger] after.pending[i]).dir,
    ) by {
        assert(after.pending[i] == w.pending[i]);
        assert(w.pending[i].depth <= top.depth);
        assert(after.scopes[k] == w.scopes[k]);
    }
    assert forall|k: int| 0 <= k < after.scopes.len() implies in_dir_spec(
        (#[trigger] after.scopes[k]).root,
        top.dir,
    ) by {
        assert(after.scopes[k] == w.scopes[k]);
    }
    assert forall|i: int, j: int| 0 <= i <= j < after.scopes.len() implies in_dir_spec(
        (#[trigger] after.scopes[i]).root,
        (#[trigger] after.scopes[j]).root,
    ) by {
        assert(after.scopes[i] == w.scopes[i]);
        assert(after.scopes[j] == w.scopes[j]);
    }
}

/// Putting the scope of the directory being listed in force keeps the
/// state well stacked and every scope above that directory.
proof fn lemma_push_scope(w: WalkerView, dir: Seq<char>, scope: ScopeView)
    requires
        well_stacked(w),
        inside_all(w.scopes, dir),
        scope.root == dir,
    ensures
        well_stacked(WalkerView { scopes: w.scopes.push(scope), pending: w.pending }),
        inside_all(w.scopes.push(scope), dir),
{
    let after = WalkerView { scopes: w.scopes.push(scope), pending: w.pending };
    lemma_in_dir_reflexive(dir);
    assert forall|i: int, k: int|
        0 <= i < after.pending.len() && 0 <= k < after.pending[i].depth implies in_dir_spec(
        (#[trigger] after.scopes[k]).root,
        (#[trigger] after.pending[i]).dir,
    ) by {
        assert(after.scopes[k] == w.scopes[k]);
    }
    assert forall|k: int| 0 <= k < after.scopes.len() implies in_dir_spec(
        (#[trigger] after.scopes[k]).root,
        dir,
    ) by {
        if k < w.scopes.len() {
            assert(after.scopes[k] == w.scopes[k]);
        }
    }
    assert forall|i: int, j: int| 0 <= i <= j < after.scopes.len() implies in_dir_spec(
        (#[trigger] after.scopes[i]).root,
        (#[trigger] after.scopes[j]).root,
    ) by {
        if i < w.scopes.len() {
            assert(after.scopes[i] == w.scopes[i]);
        }
        if j < w.scopes.len() {
            assert(after.scopes[j] == w.scopes[j]);
        }
    }
}

/// An entry of the directory being listed may be made pending below all the
/// scopes in force.
proof fn lemma_push_frame(w: WalkerView, dir: Seq<char>, name: Seq<char>)
    requires
        well_stacked(w),
        inside_all(w.scopes, dir),
        is_component(name),
    ensures
        well_stacked(
            WalkerView {
                scopes: w.scopes,
                pending: w.pending.push(
                    FrameView { dir: join_spec(dir, name), depth: w.scopes.len(), is_root: false },
                ),
            },
        ),
{
    let frame = FrameView { dir: join_spec(dir, name), depth: w.scopes.len(), is_root: false };
    let after = WalkerView { scopes: w.scopes, pending: w.pending.push(frame) };
    lemma_join_in_dir(dir, name);
    assert forall|i: int| 0 <= i < after.pending.len() implies (#[trigger] after.pending[i]).depth
        <= after.scopes.len() by {
        if i < w.pending.len() {
            assert(after.pending[i] == w.pending[i]);
        }
    }
    assert forall|i: int, j: int| 0 <= i <= j < after.pending.len() implies (
    #[trigger] after.pending[i]).depth <= (#[trigger] after.pending[j]).depth by {
        if i < w.pending.len() {
            assert(after.pending[i] == w.pending[i]);
        }
        if j < w.pending.len() {
            assert(after.pending[j] == w.pending[j]);
        }
    }
    assert forall|i: int, k: int|
        0 <= i < after.pending.len() && 0 <= k < after.pending[i].depth implies in_dir_spec(
        (#[trigger] after.scopes[k]).root,
        (#[trigger] after.pending[i]).dir,
    ) by {
        if i < w.pending.len() {
            assert(after.pending[i] == w.pending[i]);
        } else {
            lemma_in_dir_transitive(w.scopes[k].root, dir, join_spec(dir, name));
        }
    }
}

/// The names of the ignore files that are looked for in every directory,
/// in the order in which their lines are handed to `Walker::enter`.
pub fn ignore_file_names() -> (names: Vec<&'static str>)
    ensures
        names@.len() == 2,
        names@[0]@ == ".gitignore"@,
        names@[1]@ == ".ignore"@,
{
    let mut names: Vec<&'static str> = Vec::new();
    names.push(".gitignore");
    names.push(".ignore");
    names
}

/// Whether `path` is the path of an entry of the listing that is of the
/// kind asked for and is not ignored.
pub open spec fn kept_entry_at(
    dir: Seq<char>,
    entries: Seq<EntryView>,
    kind: EntryKind,
    scopes: Seq<ScopeView>,
    path: Seq<char>,
) -> bool {
    exists|j: int|
        0 <= j < entries.len() && kept(dir, #[trigger] entries[j], kind, scopes) && path
            == join_spec(dir, entries[j].name)
}

/// Every path that is kept belongs to an entry of the listing that is of
/// the kind asked for and is not ignored: what is ignored is neither
/// searched nor descended into.
pub proof fn lemma_kept_paths_sound(
    dir: Seq<char>,
    entries: Seq<EntryView>,
    kind: EntryKind,
    scopes: Seq<ScopeView>,
)
    ensures
        kept_paths(dir, entries, kind, scopes).len() <= entries.len(),
        forall|i: int|
            0 <= i < kept_paths(dir, entries, kind, scopes).len() ==> kept_entry_at(
                dir,
                entries,
                kind,
                scopes,
                #[trigger] kept_paths(dir, entries, kind, scopes)[i],
            ),
    decreases entries.len(),
{
    if entries.len() > 0 {
        let shorter = entries.drop_last();
        lemma_kept_paths_sound(dir, shorter, kind, scopes);
        let before = kept_paths(dir, shorter, kind, scopes);
        let all = kept_paths(dir, entries, kind, scopes);
        assert forall|i: int| 0 <= i < all.len() implies kept_entry_at(
            dir,
            entries,
            kind,
            scopes,
            #[trigger] all[i],
        ) by {
            if i < before.len() {
                assert(all[i] == before[i]);
                assert(kept_entry_at(dir, shorter, kind, scopes, before[i]));
                let j = choose|j: int|
                    0 <= j < shorter.len() && kept(dir, #[trigger] shorter[j], kind, scopes)
                        && before[i] == join_spec(dir, shorter[j].name);
                assert(entries[j] == shorter[j]);
            } else {
                let j = entries.len() - 1;
                assert(kept(dir, entries[j], kind, scopes));
            }
        }
    }
}

/// Every entry of the listing that is of the kind asked for and is not
/// ignored has its path among those kept.
pub proof fn lemma_kept_paths_complete(
    dir: Seq<char>,
    entries: Seq<EntryView>,
    kind: EntryKind,
    scopes: Seq<ScopeView>,
    j: int,
)
    requires
        0 <= j < entries.len(),
        kept(dir, entries[j], kind, scopes),
    ensures
        kept_paths(dir, entries, kind, scopes).contains(join_spec(dir, entries[j].name)),
    decreases entries.len(),
{
    let shorter = entries.drop_last();
    let before = kept_paths(dir, shorter, kind, scopes);
    let all = kept_paths(dir, entries, kind, scopes);
    if j == entries.len() - 1 {
        assert(all[all.len() - 1] == join_spec(dir, entries[j].name));
    } else {
        lemma_kept_paths_complete(dir, shorter, kind, scopes, j);
        let i = choose|i: int|
            0 <= i < before.len() && before[i] == join_spec(dir, shorter[j].name);
        assert(all[i] == before[i]);
    }
}

/// While a directory is listed, every scope in force was loaded from that
/// directory or from one above it.
pub proof fn lemma_scopes_in_force_are_above(w: WalkerView, files: Seq<Seq<Seq<char>>>)
    requires
        well_stacked(w),
        w.pending.len() > 0,
    ensures
        inside_all(scopes_inside(w, files), w.pending.last().dir),
{
    let top = w.pending.last();
    let inside = scopes_inside(w, files);
    lemma_leave(w);
    lemma_in_dir_reflexive(top.dir);
    assert forall|k: int| 0 <= k < inside.len() implies in_dir_spec(
        (#[trigger] inside[k]).root,
        top.dir,
    ) by {
        if k < top.depth {
            assert(inside[k] == w.scopes.take(top.depth as int)[k]);
        }
    }
}

/// While a directory is listed, each scope in force speaks of every entry
/// of the directory: none is passed over for lying elsewhere.
pub proof fn lemma_scopes_in_force_speak_of_entries(
    w: WalkerView,
    files: Seq<Seq<Seq<char>>>,
    name: Seq<char>,
)
    requires
        well_stacked(w),
        w.pending.len() > 0,
        is_component(name),
    ensures
        inside_all(scopes_inside(w, files), join_spec(w.pending.last().dir, name)),
{
    let top = w.pending.last();
    let inside = scopes_inside(w, files);
    lemma_scopes_in_force_are_above(w, files);
    lemma_join_in_dir(top.dir, name);
    assert forall|k: int| 0 <= k < inside.len() implies in_dir_spec(
        (#[trigger] inside[k]).root,
        join_spec(top.dir, name),
    ) by {
        lemma_in_dir_transitive(inside[k].root, top.dir, join_spec(top.dir, name));
    }
}

/// Giving up a directory leaves the walk well stacked.
pub proof fn lemma_skipped_is_well_stacked(w: WalkerView)
    requires
        well_stacked(w),
    ensures
        well_stacked(skipped(w)),
{
    let after = skipped(w);
    if w.pending.len() > 0 {
        assert forall|i: int| 0 <= i < after.pending.len() implies after.pending[i]
            == w.pending[i] by {}
    }
}

/// Listing a directory leaves the walk well stacked.
pub proof fn lemma_entered_is_well_stacked(
    w: WalkerView,
    files: Seq<Seq<Seq<char>>>,
    entries: Seq<EntryView>,
)
    requires
        well_stacked(w),
        w.pending.len() > 0,
    ensures
        well_stacked(entered(w, files, entries)),
{
    let top = w.pending.last();
    let inside = scopes_inside(w, files);
    let dirs = kept_paths(top.dir, entries, EntryKind::Dir, inside);
    let after = entered(w, files, entries);
    let rest = w.pending.drop_last();
    lemma_leave(w);
    lemma_kept_paths_sound(top.dir, entries, EntryKind::Dir, inside);
    lemma_scopes_in_force_are_above(w, files);
    assert forall|i: int, j: int| 0 <= i <= j < inside.len() implies in_dir_spec(
        (#[trigger] inside[i]).root,
        (#[trigger] inside[j]).root,
    ) by {
        if j < top.depth {
            assert(inside[i] == w.scopes[i]);
            assert(inside[j] == w.scopes[j]);
        } else {
            assert(inside[j].root == top.dir);
        }
    }
    assert forall|i: int| 0 <= i < after.pending.len() implies (#[trigger] after.pending[i]).depth
        <= after.scopes.len() by {
        if i < rest.len() {
            assert(after.pending[i] == w.pending[i]);
            assert(w.pending[i].depth <= top.depth);
        }
    }
    assert forall|i: int, j: int| 0 <= i <= j < after.pending.len() implies (
    #[trigger] after.pending[i]).depth <= (#[trigger] after.pending[j]).depth by {
        if i < rest.len() {
            assert(after.pending[i] == w.pending[i]);
            assert(w.pending[i].depth <= top.depth);
        }
        if j < rest.len() {
            assert(after.pending[j] == w.pending[j]);
        }
    }
    assert forall|i: int, k: int|
        0 <= i < after.pending.len() && 0 <= k < after.pending[i].depth implies in_dir_spec(
        (#[trigger] after.scopes[k]).root,
        (#[trigger] after.pending[i]).dir,
    ) by {
        if i < rest.len() {
            assert(after.pending[i] == w.pending[i]);
            assert(w.pending[i].depth <= top.depth);
            assert(after.scopes[k] == w.scopes[k]);
        } else {
            let d = dirs[i - rest.len()];
            assert(after.pending[i].dir == d);
            assert(kept_entry_at(top.dir, entries, EntryKind::Dir, inside, d));
            let j = choose|j: int|
                0 <= j < entries.len() && kept(
                    top.dir,
                    #[trigger] entries[j],
                    EntryKind::Dir,
                    inside,
                ) && d == join_spec(top.dir, entries[j].name);
            lemma_scopes_in_force_speak_of_entries(w, files, entries[j].name);
        }
    }
}

/// The state of a walk: the scopes in force and the directories still to be
/// visited.
#[derive(Debug)]
pub struct Walker {
    scopes: Vec<GitIgnore>,
    pending: Vec<Frame>,
}

impl View for Walker {
    type V = WalkerView;

    closed spec fn view(&self) -> WalkerView {
        WalkerView { scopes: scope_views(self.scopes@), pending: frame_views(self.pending@) }
    }
}

impl Walker {
    #[verifier::type_invariant]
    spec fn inv(self) -> bool {
        well_stacked(self@)
    }

    /// A walk that has `root` to visit and no scope in force.
    pub fn new(root: String) -> (w: Walker)
        ensures
            w@ == start(root@),
    {
        let mut pending: Vec<Frame> = Vec::new();
        pending.push(Frame { dir: root, depth: 0, is_root: true });
        let scopes: Vec<GitIgnore> = Vec::new();
        assert(frame_views(pending@) =~= start(root@).pending);
        assert(scope_views(scopes@) =~= start(root@).scopes);
        Walker { scopes, pending }
    }

    /// The directory to list next, or `None` when the walk is over.
    pub fn next_dir(&self) -> (res: Option<&str>)
        ensures
            well_stacked(self@),
            match res {
                Some(dir) => self@.pending.len() > 0 && dir@ == self@.pending.last().dir,
                None => self@.pending.len() == 0,
            },
    {
        proof {
            use_type_invariant(self);
        }
        let n: usize = self.pending.len();
        if n == 0 {
            None
        } else {
            Some(self.pending[n - 1].dir.as_str())
        }
    }

    /// The scopes in force, the nearest one last: after a directory has
    /// been listed, its own scopes and those of the directories above it.
    pub fn scopes(&self) -> (res: &Vec<GitIgnore>)
        ensures
            scope_views(res@) == self@.scopes,
            well_stacked(self@),
    {
        proof {
            use_type_invariant(self);
        }
        &self.scopes
    }

    /// Gives up the directory that was to be listed next, with all below
    /// it, and goes on with the rest. Without its root a walk cannot go on:
    /// when the directory given up is the one the walk started from, the
    /// result is `None`.
    pub fn skip(self) -> (res: Option<Walker>)
        ensures
            match res {
                Some(w) => w@ == skipped(self@) && !root_is_next(self@),
                None => root_is_next(self@),
            },
    {
        proof {
            use_type_invariant(&self);
        }
        let ghost before = self@;
        let Walker { scopes, mut pending } = self;
        match pending.pop() {
            Some(frame) => {
                assert(frame@ == before.pending.last());
                if frame.is_root {
                    return None;
                }
                proof {
                    let after = WalkerView {
                        scopes: scope_views(scopes@),
                        pending: frame_views(pending@),
                    };
                    assert(after.pending =~= before.pending.drop_last());
                    assert forall|i: int| 0 <= i < after.pending.len() implies after.pending[i]
                        == before.pending[i] by {}
                    assert(well_stacked(after));
                }
            },
            None => {
                assert(frame_views(pending@) =~= before.pending);
            },
        }
        Some(Walker { scopes, pending })
    }

    /// Lists the next pending directory: `ignore_files` holds the lines of
    /// each of its ignore files that exists, `entries` what it contains.
    ///
    /// The scopes of subtrees already left are dropped and the scopes of
    /// this directory put in force. Each entry is then tested against the
    /// scopes: a file that is not ignored is handed back to be searched, a
    /// directory that is not ignored becomes pending, everything else is
    /// passed over. With nothing pending, nothing changes and nothing is
    /// handed back.
    pub fn enter(self, ignore_files: &Vec<Vec<String>>, entries: &Vec<Entry>) -> (res: (
        Walker,
        Visit,
    ))
        ensures
            self@.pending.len() == 0 ==> {
                &&& res.0@ == self@
                &&& res.1@.files.len() == 0
                &&& res.1@.rejected.len() == 0
            },
            self@.pending.len() > 0 ==> {
                &&& res.0@ == entered(self@, file_texts(ignore_files@), entry_views(entries@))
                &&& res.1@.files == kept_paths(
                    self@.pending.last().dir,
                    entry_views(entries@),
                    EntryKind::File,
                    scopes_inside(self@, file_texts(ignore_files@)),
                )
                &&& res.1@.rejected == rejected_of(file_texts(ignore_files@))
            },
    {
        proof {
            use_type_invariant(&self);
        }
        let ghost before = self@;
        let Walker { mut scopes, mut pending } = self;
        let mut files: Vec<String> = Vec::new();
        let mut rejected: Vec<Vec<usize>> = Vec::new();
        let frame = match pending.pop() {
            Some(frame) => frame,
            None => {
                assert(frame_views(pending@) =~= before.pending);
                return (Walker { scopes, pending }, Visit { files, rejected });
            },
        };
        scopes.truncate(frame.depth);
        let ghost top = before.pending.last();
        let ghost texts_in = file_texts(ignore_files@);
        let ghost listed = entry_views(entries@);
        proof {
            assert(frame@ == top);
            lemma_leave(before);
            assert(frame_views(pending@) =~= before.pending.drop_last());
            assert(scope_views(scopes@) =~= before.scopes.take(top.depth as int));
        }
        let mut k: usize = 0;
        while k < ignore_files.len()
            invariant
                k <= ignore_files.len(),
                texts_in == file_texts(ignore_files@),
                frame@ == top,
                frame_views(pending@) == before.pending.drop_last(),
                scope_views(scopes@) == before.scopes.take(top.depth as int) + scopes_of(
                    top.dir,
                    texts_in,
                ).take(k as int),
                Seq::new(rejected@.len(), |i: int| rejected@[i]@) == rejected_of(texts_in).take(
                    k as int,
                ),
                well_stacked(
                    WalkerView { scopes: scope_views(scopes@), pending: frame_views(pending@) },
                ),
                inside_all(scope_views(scopes@), top.dir),
            decreases ignore_files.len() - k,
        {
            let ghost scopes_before = scope_views(scopes@);
            let ghost rejected_before = Seq::new(rejected@.len(), |i: int| rejected@[i]@);
            let (scope, lines_out) = GitIgnore::from_lines(frame.dir.clone(), &ignore_files[k]);
            proof {
                lemma_push_scope(
                    WalkerView { scopes: scopes_before, pending: frame_views(pending@) },
                    top.dir,
                    scope@,
                );
            }
            scopes.push(scope);
            rejected.push(lines_out);
            proof {
                assert(scope_views(scopes@) =~= scopes_before.push(scope@));
                assert(scopes_of(top.dir, texts_in).take(k + 1) =~= scopes_of(
                    top.dir,
                    texts_in,
                ).take(k as int).push(scope@));
                assert(Seq::new(rejected@.len(), |i: int| rejected@[i]@) =~= rejected_before.push(
                    lines_out@,
                ));
                assert(rejected_of(texts_in).take(k + 1) =~= rejected_of(texts_in).take(
                    k as int,
                ).push(lines_out@));
            }
            k = k + 1;
        }
        let depth: usize = scopes.len();
        let ghost inside = scopes_inside(before, texts_in);
        proof {
            assert(scopes_of(top.dir, texts_in).take(k as int) =~= scopes_of(top.dir, texts_in));
            assert(rejected_of(texts_in).take(k as int) =~= rejected_of(texts_in));
            assert(scope_views(scopes@) == inside);
            assert(before.pending.drop_last() + frames_for(
                kept_paths(top.dir, listed.take(0), EntryKind::Dir, inside),
                inside.len(),
            ) =~= before.pending.drop_last());
        }
        let mut i: usize = 0;
        while i < entries.len()
            invariant
                i <= entries.len(),
                listed == entry_views(entries@),
                frame@ == top,
                depth == scopes@.len(),
                scope_views(scopes@) == inside,
                Seq::new(files@.len(), |j: int| files@[j]@) == kept_paths(
                    top.dir,
                    listed.take(i as int),
                    EntryKind::File,
                    inside,
                ),
                frame_views(pending@) == before.pending.drop_last() + frames_for(
                    kept_paths(top.dir, listed.take(i as int), EntryKind::Dir, inside),
                    inside.len(),
                ),
                well_stacked(WalkerView { scopes: inside, pending: frame_views(pending@) }),
                inside_all(inside, top.dir),
            decreases entries.len() - i,
        {
            let entry = &entries[i];
            let path = join(frame.dir.as_str(), entry.name.as_str());
            let ghost files_before = Seq::new(files@.len(), |j: int| files@[j]@);
            let ghost pending_before = frame_views(pending@);
            let ghost dirs_before = kept_paths(
                top.dir,
                listed.take(i as int),
                EntryKind::Dir,
                inside,
            );
            proof {
                assert(listed.take(i + 1).drop_last() =~= listed.take(i as int));
                assert(listed.take(i + 1).last() == entry@);
            }
            let named = component(entry.name.as_str());
            match entry.kind {
                EntryKind::File => {
                    if named && !ignored(path.as_str(), false, &scopes) {
                        files.push(path);
                        assert(Seq::new(files@.len(), |j: int| files@[j]@) =~= files_before.push(
                            path@,
                        ));
                    }
                },
                EntryKind::Dir => {
                    if named && !ignored(path.as_str(), true, &scopes) {
                        proof {
                            lemma_push_frame(
                                WalkerView { scopes: inside, pending: pending_before },
                                top.dir,
                                entry@.name,
                            );
                        }
                        pending.push(Frame { dir: path, depth, is_root: false });
                        proof {
                            let frame_pushed = FrameView {
                                dir: path@,
                                depth: inside.len(),
                                is_root: false,
                            };
                            assert(frame_views(pending@) =~= pending_before.push(frame_pushed));
                            assert(before.pending.drop_last() + frames_for(
                                dirs_before.push(path@),
                                inside.len(),
                            ) =~= (before.pending.drop_last() + frames_for(
                                dirs_before,
                                inside.len(),
                            )).push(frame_pushed));
                        }
                    }
                },
                EntryKind::Other => {},
            }
            i = i + 1;
        }
        proof {
            assert(listed.take(entries@.len() as int) =~= listed);
        }
        (Walker { scopes, pending }, Visit { files, rejected })
    }
}

} // verus!
