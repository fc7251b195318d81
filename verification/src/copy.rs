//! Copying a whole tree inside a file tree: what the copy is, when it can be
//! made, and the walk that makes it one directory at a time.

use vstd::prelude::*;
use crate::action::{actions_view, ActionView, FsAction, Refusal};
use crate::error::Error;
use crate::path::{lemma_comparable, lemma_extend, lemma_within_chain, Path, PathView};
use crate::tree::{
    allowed, is_directory, is_file, listing_view, lists, rooted, run, DirEntryView, FileTree,
    NodeView, TreeView,
};
use crate::walk::{file_steps, visit_steps, TreeCopy};
use crate::copy_progress::{
    built, lemma_built_between, lemma_built_elsewhere, lemma_built_nothing, lemma_directory_step, lemma_file_copy,
    lemma_file_step, lemma_refused_directory, lemma_refused_file, lemma_source_untouched, steady,
};
use crate::copy_queue::{
    awaited, gathered, lemma_counts, lemma_file_has_step, lemma_listing_of_source,
    lemma_step_copies_file, lemma_visit_queues, lemma_visit_reaches, lemma_walked, queued,
    reaching, source_of,
};

verus! {

/// Neither path lies within the other.
pub open spec fn apart(a: PathView, b: PathView) -> bool {
    !a.is_within(b) && !b.is_within(a)
}

/// The tree `t` with a copy of all that stands at and below `from` put at
/// `to`. The directories above `to` are there too; what the copy does not
/// cover stays as it was.
pub open spec fn copied(t: TreeView, from: PathView, to: PathView) -> TreeView {
    Map::new(
        |q: PathView|
            t.contains_key(q) || to.is_within(q) || (q.is_within(to) && t.contains_key(
                q.moved(to, from),
            )),
        |q: PathView|
            if q.is_within(to) && t.contains_key(q.moved(to, from)) {
                t[q.moved(to, from)]
            } else if t.contains_key(q) {
                t[q]
            } else {
                NodeView::Directory
            },
    )
}

/// The entry `p` of the source cannot be copied to its place: a file stands
/// where a directory is to be, or a directory where a file is to be, or a
/// file is to be put where no name is left for it.
pub open spec fn clashes(t: TreeView, p: PathView, from: PathView, to: PathView) -> bool {
    if t[p] is Directory {
        is_file(t, p.moved(from, to))
    } else {
        is_directory(t, p.moved(from, to)) || p.moved(from, to).names.len() == 0
    }
}

/// Whether the tree at `from` can be copied to `to`: it exists, the two lie
/// apart, no file stands above `to`, and no entry clashes with what stands
/// at its place.
pub open spec fn copyable(t: TreeView, from: PathView, to: PathView) -> bool {
    &&& t.contains_key(from)
    &&& apart(from, to)
    &&& forall|q: PathView|
        #![trigger to.is_within(q)]
        #![trigger is_file(t, q)]
        to.is_within(q) && q != to ==> !is_file(t, q)
    &&& forall|p: PathView|
        #![trigger clashes(t, p, from, to)]
        #![trigger p.is_within(from)]
        t.contains_key(p) && p.is_within(from) ==> !clashes(t, p, from, to)
}

/// The tree `after` lies between `before` and `full`: it holds all that
/// `before` held and nothing that `full` does not hold, and what it holds
/// at a path is what `full` holds there or still what `before` held.
pub open spec fn between(before: TreeView, after: TreeView, full: TreeView) -> bool {
    forall|q: PathView|
        #![trigger after.contains_key(q)]
        #![trigger before.contains_key(q)]
        {
            &&& before.contains_key(q) ==> after.contains_key(q)
            &&& after.contains_key(q) ==> {
                &&& full.contains_key(q)
                &&& after[q] == full[q] || (before.contains_key(q) && after[q] == before[q])
            }
        }
}

/// Nothing has changed from `before` to `after` but at `to`, below it and
/// above it.
pub open spec fn same_elsewhere(before: TreeView, after: TreeView, to: PathView) -> bool {
    forall|q: PathView|
        #![trigger after.contains_key(q)]
        #![trigger before.contains_key(q)]
        !q.is_within(to) && !to.is_within(q) ==> {
            &&& after.contains_key(q) == before.contains_key(q)
            &&& before.contains_key(q) ==> after[q] == before[q]
        }
}

/// A path within one of two paths that lie apart is neither within the
/// other nor above it.
pub proof fn lemma_apart(p: PathView, a: PathView, b: PathView)
    requires
        apart(a, b),
        p.is_within(a),
    ensures
        !p.is_within(b),
        !b.is_within(p),
{
    if p.is_within(b) {
        lemma_comparable(p, a, b);
    }
    if b.is_within(p) {
        lemma_within_chain(b, p, a);
    }
}

/// A copy changes nothing but at `to`, below it and above it.
pub proof fn lemma_copied_elsewhere(t: TreeView, from: PathView, to: PathView)
    ensures
        same_elsewhere(t, copied(t, from, to), to),
{
}

impl FileTree {
    /// Takes the steps of the visit of one directory of the source: the
    /// directory is created in the copy, then its files are copied.
    fn copy_entries(
        &mut self,
        steps: &Vec<FsAction>,
        Ghost(start): Ghost<TreeView>,
        Ghost(from): Ghost<PathView>,
        Ghost(to): Ghost<PathView>,
        Ghost(r): Ghost<Seq<Seq<char>>>,
        Ghost(entries): Ghost<Seq<DirEntryView>>,
        Ghost(dirs): Ghost<Set<PathView>>,
        Ghost(files): Ghost<Set<PathView>>,
    ) -> (outcome: (Result<(), Refusal>, Ghost<Set<PathView>>))
        requires
            old(self).wf(),
            rooted(start),
            apart(from, to),
            actions_view(steps@) == visit_steps(from, to, r, entries),
            lists(start, from.extend(r), entries),
            is_directory(start, from.extend(r)),
            !dirs.contains(from.extend(r)),
            r.len() > 0 ==> dirs.contains(from.extend(r.drop_last())),
            old(self)@ == built(start, from, to, dirs, files),
            steady(start, from, to, dirs, files),
            gathered(start, from, dirs, files, None),
        ensures
            final(self).wf(),
            match outcome.0 {
                Ok(()) => {
                    &&& final(self)@ == built(
                        start,
                        from,
                        to,
                        dirs.insert(from.extend(r)),
                        outcome.1@,
                    )
                    &&& steady(start, from, to, dirs.insert(from.extend(r)), outcome.1@)
                    &&& gathered(start, from, dirs.insert(from.extend(r)), outcome.1@, None)
                },
                Err(r) => {
                    &&& r.error == Error::IoFailure
                    &&& r.step matches Some(a) && !allowed(final(self)@, a@)
                    &&& !copyable(start, from, to)
                    &&& same_elsewhere(start, final(self)@, to)
                    &&& between(start, final(self)@, copied(start, from, to))
                },
            },
    {
        let ghost here = from.extend(r);
        let ghost plan = visit_steps(from, to, r, entries);
        let ghost more = dirs.insert(here);
        proof {
            lemma_extend(from, to, r);
            assert(plan.len() >= 1);
            assert(actions_view(steps@).len() == steps@.len());
            assert(plan[0] == ActionView::CreateDirectory(here.moved(from, to)));
            assert(actions_view(steps@)[0] == steps[0]@);
            lemma_directory_step(start, from, to, dirs, files, here);
        }
        match self.apply(&steps[0]) {
            Ok(()) => {},
            Err(_) => {
                proof {
                    lemma_refused_directory(start, from, to, dirs, files, here);
                    lemma_built_elsewhere(start, from, to, dirs, files);
                    lemma_built_between(start, from, to, dirs, files);
                }
                return (Err(Refusal::of_step(&steps[0])), Ghost(files));
            },
        }
        let ghost mut copied: Set<PathView> = files;
        let mut a: usize = 1;
        while a < steps.len()
            invariant
                1 <= a <= steps.len(),
                self.wf(),
                rooted(start),
                apart(from, to),
                actions_view(steps@) == plan,
                plan == visit_steps(from, to, r, entries),
                lists(start, here, entries),
                here == from.extend(r),
                more == dirs.insert(here),
                self@ == built(start, from, to, more, copied),
                steady(start, from, to, more, copied),
                files.subset_of(copied),
                forall|b: int| 1 <= b < a ==> copied.contains(source_of(#[trigger] plan[b])),
            decreases steps.len() - a,
        {
            let ghost f = source_of(plan[a as int]);
            proof {
                lemma_step_copies_file(start, from, to, r, entries, a as int);
                assert(actions_view(steps@)[a as int] == steps[a as int]@);
                lemma_file_step(start, from, to, more, copied, f);
            }
            match self.apply(&steps[a]) {
                Ok(()) => {},
                Err(_) => {
                    proof {
                        lemma_refused_file(start, from, to, more, copied, f);
                        lemma_built_elsewhere(start, from, to, more, copied);
                        lemma_built_between(start, from, to, more, copied);
                    }
                    return (Err(Refusal::of_step(&steps[a])), Ghost(copied));
                },
            }
            proof {
                copied = copied.insert(f);
            }
            a = a + 1;
        }
        proof {
            assert forall|f: PathView| #[trigger]
                is_file(start, f) && f.is_within(from) && f != from && more.contains(
                    f.parent(),
                ) implies copied.contains(f) by {
                if f.parent() == here {
                    lemma_file_has_step(start, from, to, r, entries, f);
                } else {
                    assert(dirs.contains(f.parent()));
                    assert(files.contains(f));
                }
            }
        }
        (Ok(()), Ghost(copied))
    }

    /// Copies all that stands at and below `from` to `to`.
    ///
    /// The copy is made exactly where it can be made: see [`copyable`].
    /// Paths of which one lies within the other are refused and nothing is
    /// done. Otherwise the tree is walked one directory at a time; where a
    /// step is refused the walk stops and names that step. What has been
    /// copied stays: the tree is left between what it was and what the
    /// whole copy would have made of it, and nothing has changed but at
    /// `to`, below it and above it.
    pub fn copy_tree(&mut self, from: &Path, to: &Path) -> (outcome: Result<(), Refusal>)
        requires
            old(self).wf(),
        ensures
            final(self).wf(),
            outcome.is_ok() == copyable(old(self)@, from@, to@),
            outcome.is_ok() ==> final(self)@ == copied(old(self)@, from@, to@),
            outcome matches Err(r) ==> {
                &&& r.error == (if apart(from@, to@) {
                    Error::IoFailure
                } else {
                    Error::InvalidPath
                })
                &&& r.step.is_some() == (apart(from@, to@) && old(self)@.contains_key(from@))
                &&& r.step matches Some(a) ==> !allowed(final(self)@, a@)
                &&& r.step.is_none() ==> final(self)@ == old(self)@
                &&& same_elsewhere(old(self)@, final(self)@, to@)
                &&& between(old(self)@, final(self)@, copied(old(self)@, from@, to@))
            },
    {
        if from.is_within(to) || to.is_within(from) {
            return Err(Refusal::plain(Error::InvalidPath));
        }
        if !self.holds(from) {
            return Err(Refusal::plain(Error::IoFailure));
        }
        let directory = self.is_dir(from);
        let (mut walk, first) = TreeCopy::start(from.clone(), to.clone(), directory);
        let ghost start = self@;
        if !directory {
            proof {
                lemma_file_copy(start, from@, to@);
            }
            return match self.apply_all(&first) {
                Ok(()) => Ok(()),
                Err(k) => {
                    proof {
                        assert(same_elsewhere(
                            start,
                            run(start, file_steps(from@, to@).take(k as int)),
                            to@,
                        ));
                        assert(between(
                            start,
                            run(start, file_steps(from@, to@).take(k as int)),
                            copied(start, from@, to@),
                        ));
                    }
                    Err(Refusal::of_step(&first[k]))
                },
            };
        }
        let ghost mut dirs: Set<PathView> = Set::empty();
        let ghost mut files: Set<PathView> = Set::empty();
        proof {
            lemma_built_nothing(start, from@, to@);
            lemma_extend(from@, to@, Seq::empty());
            assert(walk@.pending[0] == Seq::<Seq<char>>::empty());
            assert(awaited(from@, walk@.pending, from@));
        }
        while !walk.is_done()
            invariant
                self.wf(),
                walk@.from == from@,
                walk@.to == to@,
                start == old(self)@,
                rooted(start),
                start.dom().finite(),
                apart(from@, to@),
                self@ == built(start, from@, to@, dirs, files),
                steady(start, from@, to@, dirs, files),
                queued(start, from@, dirs, walk@.pending),
                reaching(start, from@, dirs, walk@.pending),
                gathered(start, from@, dirs, files, None),
            decreases start.dom().len() - dirs.len(),
        {
            let ghost pending = walk@.pending;
            let ghost r = pending.last();
            let ghost here = from@.extend(r);
            let dir = match walk.next() {
                Some(dir) => dir,
                None => {
                    return Err(Refusal::plain(Error::IoFailure));
                },
            };
            proof {
                lemma_extend(from@, to@, r);
                lemma_source_untouched(start, from@, to@, dirs, files, here);
            }
            let listing = match self.list(&dir) {
                Some(listing) => listing,
                None => {
                    return Err(Refusal::plain(Error::IoFailure));
                },
            };
            let steps = walk.visit(&listing);
            let ghost entries = listing_view(listing@);
            proof {
                lemma_listing_of_source(start, from@, to@, dirs, files, here, entries);
            }
            let (taken, Ghost(copied)) = self.copy_entries(
                &steps,
                Ghost(start),
                Ghost(from@),
                Ghost(to@),
                Ghost(r),
                Ghost(entries),
                Ghost(dirs),
                Ghost(files),
            );
            match taken {
                Ok(()) => {},
                Err(e) => {
                    return Err(e);
                },
            }
            proof {
                lemma_visit_queues(start, from@, to@, dirs, files, pending, entries);
                lemma_visit_reaches(start, from@, to@, dirs, pending, entries);
                lemma_counts(start, dirs, here);
                dirs = dirs.insert(here);
                files = copied;
            }
        }
        proof {
            assert(walk@.pending =~= Seq::<Seq<Seq<char>>>::empty());
            lemma_walked(start, from@, to@, dirs, files);
        }
        Ok(())
    }
}

} // verus!
