//! The trash: a directory that holds copies of what was thrown away. Each
//! copy stands under the trash root at the place that its original had
//! under the top of the tree, so that copies of different originals never
//! meet, and each can be brought back to where it was.

use vstd::prelude::*;
use crate::action::{ActionView, FsAction, Refusal};
use crate::copy::{
    apart, between, clashes, copied, copyable, lemma_apart, lemma_copied_elsewhere,
    same_elsewhere,
};
use crate::error::Error;
use crate::path::{lemma_moved_back, lemma_within_both, lemma_within_chain, Path, PathView};
use crate::tree::{
    allowed, effect, is_directory, is_file, lemma_above_is_directory, lemma_file_is_alone, rooted, FileTree,
    TreeView,
};
use crate::walk::{file_steps, TreeCopy};
use crate::action::actions_view;

verus! {

/// The trash, known by the directory that holds it.
pub struct TrashStore {
    pub root: Path,
}

/// Where the copy of `path` stands in the trash at `root`: the names of
/// `path` lead there from `root`.
pub open spec fn mirror_of(root: PathView, path: PathView) -> PathView {
    root.extend(path.names)
}

/// The path has a place in the trash at `root`: it is absolute, since the
/// trash keeps its copies by the whole path from the top of the tree, and
/// it does not lie above its own place in the trash, nor that place above
/// it.
pub open spec fn placeable(root: PathView, path: PathView) -> bool {
    path.absolute && apart(path, mirror_of(root, path))
}

/// Whether `path` can be staged in the trash at `root`: it has a place
/// there, and all that stands at it and below it can be copied to that
/// place.
pub open spec fn stageable(t: TreeView, root: PathView, path: PathView) -> bool {
    placeable(root, path) && copyable(t, path, mirror_of(root, path))
}

/// Whether `path` can be brought back from the trash at `root`: it has a
/// place there, and all that stands at that place and below it can be
/// copied to `path`.
pub open spec fn restorable(t: TreeView, root: PathView, path: PathView) -> bool {
    placeable(root, path) && copyable(t, mirror_of(root, path), path)
}

/// Why the staging of `path` fails where it fails: a path without a place
/// in the trash is invalid; any other failure is a step that was refused.
pub open spec fn stage_error(root: PathView, path: PathView) -> Error {
    if placeable(root, path) {
        Error::IoFailure
    } else {
        Error::InvalidPath
    }
}

/// Why the return of `path` fails where it fails: a path without a place
/// in the trash is invalid; with nothing at its place it was never
/// trashed; any other failure is a step that was refused.
pub open spec fn restore_error(t: TreeView, root: PathView, path: PathView) -> Error {
    if !placeable(root, path) {
        Error::InvalidPath
    } else if !t.contains_key(mirror_of(root, path)) {
        Error::NotTrashed
    } else {
        Error::IoFailure
    }
}

/// The tree `t` after `path` was staged in the trash at `root`.
pub open spec fn staged(t: TreeView, root: PathView, path: PathView) -> TreeView {
    copied(t, path, mirror_of(root, path))
}

/// The tree `t` after `path` was brought back from the trash at `root`.
pub open spec fn restored(t: TreeView, root: PathView, path: PathView) -> TreeView {
    copied(t, mirror_of(root, path), path)
}

/// The tree `t` without `path` and all below it.
pub open spec fn discarded(t: TreeView, path: PathView) -> TreeView {
    effect(t, ActionView::RemoveDirectory(path))
}

/// The step that removes `path`: as a directory with all that it holds
/// where it is one, else as a file.
pub open spec fn removal(t: TreeView, path: PathView) -> ActionView {
    if is_directory(t, path) {
        ActionView::RemoveDirectory(path)
    } else {
        ActionView::RemoveFile(path)
    }
}

/// At `path` and below it the two trees hold the same.
pub open spec fn same_within(before: TreeView, after: TreeView, path: PathView) -> bool {
    forall|p: PathView|
        #![trigger after.contains_key(p)]
        #![trigger before.contains_key(p)]
        p.is_within(path) ==> {
            &&& after.contains_key(p) == before.contains_key(p)
            &&& before.contains_key(p) ==> after[p] == before[p]
        }
}

/// Nothing of `t` stands at `path` or below it.
pub open spec fn vacant(t: TreeView, path: PathView) -> bool {
    forall|p: PathView| #[trigger] t.contains_key(p) ==> !p.is_within(path)
}

impl TrashStore {
    /// The trash held by the directory `root`.
    pub fn new(root: Path) -> (store: TrashStore)
        ensures
            store.root@ == root@,
    {
        TrashStore { root }
    }

    /// Where the copy of `path` stands in the trash.
    pub fn mirror(&self, path: &Path) -> (place: Path)
        ensures
            place@ == mirror_of(self.root@, path@),
    {
        self.root.extend(&path.names)
    }

    /// Begins the staging of `path`, which was found to be a directory or
    /// not. A path without a place in the trash is refused: one that is
    /// not absolute, or that lies above its own place in the trash.
    /// Otherwise the walk that copies `path` to its place is handed out,
    /// with the steps to take before the first visit.
    pub fn begin_stage(&self, path: &Path, directory: bool) -> (outcome: Result<
        (TreeCopy, Vec<FsAction>),
        Error,
    >)
        ensures
            outcome.is_ok() == placeable(self.root@, path@),
            outcome matches Err(e) ==> e == Error::InvalidPath,
            outcome matches Ok(begun) ==> {
                &&& begun.0@.from == path@
                &&& begun.0@.to == mirror_of(self.root@, path@)
                &&& directory ==> begun.0@.pending == seq![Seq::<Seq<char>>::empty()]
                    && begun.1@.len() == 0
                &&& !directory ==> begun.0@.pending.len() == 0 && actions_view(begun.1@)
                    == file_steps(path@, mirror_of(self.root@, path@))
            },
    {
        let place = self.mirror(path);
        if !path.absolute || path.is_within(&place) || place.is_within(path) {
            return Err(Error::InvalidPath);
        }
        Ok(TreeCopy::start(path.clone(), place, directory))
    }

    /// Begins the return of `original` from the trash. `found` says what
    /// stands at its place in the trash: nothing, a directory, or a file.
    /// A path without a place in the trash is refused: one that is not
    /// absolute, or that lies above its own place in the trash. With
    /// nothing at its place the path was never staged. Otherwise the walk
    /// that copies from the trash to `original` is handed out, with the
    /// steps to take before the first visit.
    pub fn begin_restore(&self, original: &Path, found: Option<bool>) -> (outcome: Result<
        (TreeCopy, Vec<FsAction>),
        Error,
    >)
        ensures
            outcome.is_ok() == (found.is_some() && placeable(self.root@, original@)),
            outcome matches Err(e) ==> e == (if !placeable(self.root@, original@) {
                Error::InvalidPath
            } else {
                Error::NotTrashed
            }),
            outcome matches Ok(begun) ==> {
                &&& begun.0@.from == mirror_of(self.root@, original@)
                &&& begun.0@.to == original@
                &&& found == Some(true) ==> begun.0@.pending == seq![Seq::<Seq<char>>::empty()]
                    && begun.1@.len() == 0
                &&& found == Some(false) ==> begun.0@.pending.len() == 0 && actions_view(begun.1@)
                    == file_steps(mirror_of(self.root@, original@), original@)
            },
    {
        let place = self.mirror(original);
        if !original.absolute || original.is_within(&place) || place.is_within(original) {
            return Err(Error::InvalidPath);
        }
        match found {
            Some(directory) => Ok(TreeCopy::start(place, original.clone(), directory)),
            None => Err(Error::NotTrashed),
        }
    }

    /// Stages `path`: copies all that stands at and below it to its place
    /// in the trash. The original stays where it is.
    ///
    /// The copy is made exactly where it can be made. A path without a
    /// place in the trash, because it is not absolute or lies above its
    /// own place there, is refused and nothing is done; any other failure
    /// leaves what was copied before it, and the original untouched.
    pub fn stage(&self, tree: &mut FileTree, path: &Path) -> (outcome: Result<(), Refusal>)
        requires
            old(tree).wf(),
        ensures
            final(tree).wf(),
            outcome.is_ok() == stageable(old(tree)@, self.root@, path@),
            outcome.is_ok() ==> final(tree)@ == staged(old(tree)@, self.root@, path@),
            outcome matches Err(r) ==> {
                &&& r.error == stage_error(self.root@, path@)
                &&& r.step.is_some() == (placeable(self.root@, path@) && old(
                    tree,
                )@.contains_key(path@))
                &&& r.step matches Some(a) ==> !allowed(final(tree)@, a@)
                &&& r.step.is_none() ==> final(tree)@ == old(tree)@
                &&& between(old(tree)@, final(tree)@, staged(old(tree)@, self.root@, path@))
            },
            same_within(old(tree)@, final(tree)@, path@),
    {
        if !path.absolute {
            return Err(Refusal::plain(Error::InvalidPath));
        }
        let place = self.mirror(path);
        let outcome = tree.copy_tree(path, &place);
        proof {
            lemma_copied_elsewhere(old(tree)@, path@, place@);
            lemma_source_kept(old(tree)@, tree@, path@, place@);
        }
        outcome
    }

    /// Brings `original` back: copies all that stands at and below its
    /// place in the trash to where it was. The copy in the trash stays.
    ///
    /// A path without a place in the trash, because it is not absolute or
    /// lies above its own place there, is refused and nothing is done.
    /// Where nothing stands at its place, the return fails with
    /// `NotTrashed` and does nothing. Otherwise the copy is made exactly
    /// where it can be made; a failure on the way leaves what was copied
    /// before it.
    pub fn restore(&self, tree: &mut FileTree, original: &Path) -> (outcome: Result<(), Refusal>)
        requires
            old(tree).wf(),
        ensures
            final(tree).wf(),
            outcome.is_ok() == restorable(old(tree)@, self.root@, original@),
            outcome.is_ok() ==> final(tree)@ == restored(old(tree)@, self.root@, original@),
            outcome matches Err(r) ==> {
                &&& r.error == restore_error(old(tree)@, self.root@, original@)
                &&& r.step.is_some() == (r.error == Error::IoFailure)
                &&& r.step matches Some(a) ==> !allowed(final(tree)@, a@)
                &&& r.step.is_none() ==> final(tree)@ == old(tree)@
                &&& between(old(tree)@, final(tree)@, restored(old(tree)@, self.root@, original@))
            },
            same_elsewhere(old(tree)@, final(tree)@, original@),
    {
        let place = self.mirror(original);
        if !original.absolute || original.is_within(&place) || place.is_within(original) {
            return Err(Refusal::plain(Error::InvalidPath));
        }
        if !tree.holds(&place) {
            return Err(Refusal::plain(Error::NotTrashed));
        }
        let outcome = tree.copy_tree(&place, original);
        proof {
            if outcome.is_ok() {
                lemma_copied_elsewhere(old(tree)@, place@, original@);
            }
        }
        outcome
    }

    /// The step that follows a staging: the removal of the original, as a
    /// directory with all that it holds or as a file. There is none where
    /// the staging has failed: the original is never removed before its
    /// copy stands in the trash.
    pub fn after_stage(path: &Path, directory: bool, staged: bool) -> (step: Option<FsAction>)
        ensures
            !staged ==> step.is_none(),
            staged ==> step.is_some() && step.unwrap()@ == (if directory {
                ActionView::RemoveDirectory(path@)
            } else {
                ActionView::RemoveFile(path@)
            }),
    {
        if !staged {
            None
        } else if directory {
            Some(FsAction::RemoveDirectory(path.clone()))
        } else {
            Some(FsAction::RemoveFile(path.clone()))
        }
    }

    /// Throws `path` away: stages it, and then removes the original. The
    /// original is removed only after the staging has succeeded; where the
    /// staging fails, the original stands untouched.
    pub fn trash(&self, tree: &mut FileTree, path: &Path) -> (outcome: Result<(), Refusal>)
        requires
            old(tree).wf(),
        ensures
            final(tree).wf(),
            outcome.is_ok() == stageable(old(tree)@, self.root@, path@),
            outcome.is_ok() ==> final(tree)@ == discarded(
                staged(old(tree)@, self.root@, path@),
                path@,
            ),
            outcome matches Err(r) ==> {
                &&& r.error == stage_error(self.root@, path@)
                &&& r.step.is_some() == (placeable(self.root@, path@) && old(
                    tree,
                )@.contains_key(path@))
                &&& r.step matches Some(a) ==> !allowed(final(tree)@, a@)
                &&& r.step.is_none() ==> final(tree)@ == old(tree)@
                &&& same_within(old(tree)@, final(tree)@, path@)
                &&& between(old(tree)@, final(tree)@, staged(old(tree)@, self.root@, path@))
            },
    {
        let staged = self.stage(tree, path);
        let step = match TrashStore::after_stage(path, tree.is_dir(path), staged.is_ok()) {
            Some(step) => step,
            None => {
                return staged;
            },
        };
        proof {
            assert(tree@.contains_key(path@)) by {
                assert(path@.is_within(path@));
            }
            lemma_discard(tree@, path@);
        }
        match tree.apply(&step) {
            Ok(()) => Ok(()),
            Err(_) => Err(Refusal::of_step(&step)),
        }
    }
}

/// After a path was staged and the original removed, the path can be
/// restored.
pub proof fn lemma_restore_is_owed(t: TreeView, root: PathView, path: PathView)
    requires
        rooted(t),
        stageable(t, root, path),
    ensures
        restorable(discarded(staged(t, root, path), path), root, path),
{
    let m = mirror_of(root, path);
    let s = staged(t, root, path);
    let g = discarded(s, path);
    lemma_moved_back(m, m, path);
    assert(m.is_within(m));
    assert(s.contains_key(m));
    assert forall|q: PathView| path.is_within(q) && q != path implies !is_file(g, q) by {
        lemma_above_is_directory(t, path, q);
        if q.is_within(m) {
            lemma_within_chain(path, q, m);
        }
        if q.is_within(path) {
            lemma_within_both(q, path);
        }
    }
    assert forall|p: PathView| g.contains_key(p) && p.is_within(m) implies !clashes(
        g,
        p,
        m,
        path,
    ) by {
        lemma_moved_back(p, m, path);
        let back = p.moved(m, path);
        assert(!g.contains_key(back));
        if g[p] is File && back.names.len() == 0 {
            assert(p.names.len() == m.names.len());
            assert(p.names =~= m.names);
            assert(back == path);
            assert(s[m] == t[path]);
        }
    }
}

/// Staging a path, removing the original and restoring the path brings
/// back every entry that stood at the path or below it, with what it held.
/// Where nothing stood at its place in the trash before, nothing else is
/// brought back; and the copy in the trash stays as the staging made it.
pub proof fn lemma_stage_restore_round_trip(t: TreeView, root: PathView, path: PathView)
    requires
        rooted(t),
        stageable(t, root, path),
    ensures
        restorable(discarded(staged(t, root, path), path), root, path),
        forall|p: PathView|
            p.is_within(path) && #[trigger] t.contains_key(p) ==> {
                let back = restored(discarded(staged(t, root, path), path), root, path);
                back.contains_key(p) && back[p] == t[p]
            },
        vacant(t, mirror_of(root, path)) ==> same_within(
            t,
            restored(discarded(staged(t, root, path), path), root, path),
            path,
        ),
        same_within(
            staged(t, root, path),
            restored(discarded(staged(t, root, path), path), root, path),
            mirror_of(root, path),
        ),
{
    let m = mirror_of(root, path);
    let s = staged(t, root, path);
    let g = discarded(s, path);
    let back = restored(g, root, path);
    lemma_restore_is_owed(t, root, path);
    assert forall|p: PathView| p.is_within(path) implies {
        &&& t.contains_key(p) ==> back.contains_key(p) && back[p] == t[p]
        &&& vacant(t, m) && back.contains_key(p) ==> t.contains_key(p)
    } by {
        let pm = p.moved(path, m);
        lemma_moved_back(p, path, m);
        lemma_apart(pm, m, path);
        assert(!g.contains_key(p));
        if path.is_within(p) {
            lemma_within_both(p, path);
        }
        if vacant(t, m) && t.contains_key(pm) {
            assert(false);
        }
    }
    assert forall|q: PathView| q.is_within(m) implies back.contains_key(q) == s.contains_key(q)
        && (s.contains_key(q) ==> back[q] == s[q]) by {
        lemma_apart(q, m, path);
    }
}

/// The copies of two paths that lie apart lie apart in the trash: neither
/// can overwrite the other. The trash takes absolute paths only, so this
/// holds of any two paths that it takes.
pub proof fn lemma_mirrors_apart(root: PathView, a: PathView, b: PathView)
    requires
        a.absolute == b.absolute,
        apart(a, b),
    ensures
        apart(mirror_of(root, a), mirror_of(root, b)),
        mirror_of(root, a) != mirror_of(root, b),
{
    let ma = mirror_of(root, a);
    let mb = mirror_of(root, b);
    let n = root.names.len() as int;
    if ma.is_within(mb) {
        assert(b.names =~= a.names.subrange(0, b.names.len() as int)) by {
            assert forall|i: int| 0 <= i < b.names.len() implies b.names[i] == a.names[i] by {
                assert(mb.names[n + i] == b.names[i]);
                assert(ma.names[n + i] == a.names[i]);
            }
        }
        assert(a.is_within(b));
    }
    if mb.is_within(ma) {
        assert(a.names =~= b.names.subrange(0, a.names.len() as int)) by {
            assert forall|i: int| 0 <= i < a.names.len() implies b.names[i] == a.names[i] by {
                assert(mb.names[n + i] == b.names[i]);
                assert(ma.names[n + i] == a.names[i]);
            }
        }
        assert(b.is_within(a));
    }
    if ma == mb {
        assert(ma.is_within(mb));
    }
}

/// Staging one path leaves the copy of another, which lies apart from it,
/// as it was in the trash.
pub proof fn lemma_stage_keeps_other_copies(t: TreeView, root: PathView, a: PathView, b: PathView)
    requires
        a.absolute == b.absolute,
        apart(a, b),
    ensures
        same_within(t, staged(t, root, b), mirror_of(root, a)),
{
    lemma_mirrors_apart(root, a, b);
    assert forall|p: PathView| p.is_within(mirror_of(root, a)) implies !p.is_within(
        mirror_of(root, b),
    ) && !mirror_of(root, b).is_within(p) by {
        lemma_apart(p, mirror_of(root, a), mirror_of(root, b));
    }
}

/// Removing what stands at `path`, as a directory or as a file, removes
/// `path` and all below it.
pub proof fn lemma_discard(t: TreeView, path: PathView)
    requires
        rooted(t),
        t.contains_key(path),
    ensures
        allowed(t, removal(t, path)),
        effect(t, removal(t, path)) == discarded(t, path),
{
    if !is_directory(t, path) {
        assert(is_file(t, path));
        assert forall|p: PathView| t.contains_key(p) && p.is_within(path) implies p == path by {
            lemma_file_is_alone(t, path, p);
        }
        assert(path.is_within(path));
        assert(t.remove(path) =~= discarded(t, path));
    }
}

/// A copy that failed has left its source as it was.
pub proof fn lemma_source_kept(before: TreeView, after: TreeView, from: PathView, to: PathView)
    requires
        same_elsewhere(before, after, to),
        !apart(from, to) ==> after == before,
    ensures
        same_within(before, after, from),
{
    if apart(from, to) {
        assert forall|p: PathView| p.is_within(from) implies !p.is_within(to) && !to.is_within(
            p,
        ) by {
            lemma_apart(p, from, to);
        }
    }
}

} // verus!
