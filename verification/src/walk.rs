//! Copying a tree step by step. The walk keeps the directories that are
//! still to be visited on a stack; for each directory it is shown, it says
//! which steps copy that directory's own entries and remembers the
//! directories found in it.

use vstd::prelude::*;
use crate::action::{actions_view, ActionView, FsAction};
use crate::path::{below_entry, copy_names, Path, PathView};
use crate::text::texts;
use crate::tree::{listing_view, DirEntry, DirEntryView};

verus! {

/// A copy of a tree in progress.
pub struct TreeCopy {
    /// The tree to copy.
    pub from: Path,
    /// Where the copy is to stand.
    pub to: Path,
    /// The directories still to visit, each by the names that lead to it
    /// from the top of the tree; the next one is the last.
    pub pending: Vec<Vec<String>>,
}

/// What a [`TreeCopy`] stands for.
pub struct TreeCopyView {
    pub from: PathView,
    pub to: PathView,
    pub pending: Seq<Seq<Seq<char>>>,
}

/// The views of the name lists in `pending`, in order.
pub open spec fn pending_view(pending: Seq<Vec<String>>) -> Seq<Seq<Seq<char>>> {
    Seq::new(pending.len(), |i: int| texts(pending[i]@))
}

impl View for TreeCopy {
    type V = TreeCopyView;

    open spec fn view(&self) -> TreeCopyView {
        TreeCopyView { from: self.from@, to: self.to@, pending: pending_view(self.pending@) }
    }
}

/// The steps that copy a single file: the directory that is to hold the
/// copy is created with all above it, then the bytes are copied.
pub open spec fn file_steps(from: PathView, to: PathView) -> Seq<ActionView> {
    if to.names.len() > 0 {
        seq![ActionView::CreateDirectory(to.parent()), ActionView::CopyBytes(from, to)]
    } else {
        seq![ActionView::CopyBytes(from, to)]
    }
}

/// The steps that copy the files among `listing`, the entries of the
/// directory `dir` of the source, in the order of the listing.
pub open spec fn copies(
    from: PathView,
    to: PathView,
    dir: Seq<Seq<char>>,
    listing: Seq<DirEntryView>,
) -> Seq<ActionView>
    decreases listing.len(),
{
    if listing.len() == 0 {
        Seq::empty()
    } else {
        let before = copies(from, to, dir, listing.drop_last());
        let entry = listing.last();
        if entry.directory {
            before
        } else {
            before.push(
                ActionView::CopyBytes(
                    from.extend(dir).child(entry.name),
                    to.extend(dir).child(entry.name),
                ),
            )
        }
    }
}

/// The directories among `listing`, the entries of the directory `dir`, in
/// the order of the listing.
pub open spec fn subdirectories(dir: Seq<Seq<char>>, listing: Seq<DirEntryView>) -> Seq<
    Seq<Seq<char>>,
>
    decreases listing.len(),
{
    if listing.len() == 0 {
        Seq::empty()
    } else {
        let before = subdirectories(dir, listing.drop_last());
        let entry = listing.last();
        if entry.directory {
            before.push(dir.push(entry.name))
        } else {
            before
        }
    }
}

/// The steps for one directory: it is created in the copy, then its files
/// are copied.
pub open spec fn visit_steps(
    from: PathView,
    to: PathView,
    dir: Seq<Seq<char>>,
    listing: Seq<DirEntryView>,
) -> Seq<ActionView> {
    seq![ActionView::CreateDirectory(to.extend(dir))] + copies(from, to, dir, listing)
}

/// The step that copies the file `name` of the directory `dir`.
pub open spec fn copy_of_entry(
    from: PathView,
    to: PathView,
    dir: Seq<Seq<char>>,
    name: Seq<char>,
) -> ActionView {
    ActionView::CopyBytes(from.extend(dir).child(name), to.extend(dir).child(name))
}

/// Each step of `copies` copies a file of the listing, and each file of the
/// listing is copied by one of the steps.
pub proof fn lemma_copies(
    from: PathView,
    to: PathView,
    dir: Seq<Seq<char>>,
    listing: Seq<DirEntryView>,
)
    ensures
        forall|a: int|
            0 <= a < copies(from, to, dir, listing).len() ==> exists|i: int|
                0 <= i < listing.len() && !listing[i].directory && #[trigger] copies(
                    from,
                    to,
                    dir,
                    listing,
                )[a] == copy_of_entry(from, to, dir, #[trigger] listing[i].name),
        forall|i: int|
            0 <= i < listing.len() && !(#[trigger] listing[i]).directory ==> exists|a: int|
                0 <= a < copies(from, to, dir, listing).len() && #[trigger] copies(
                    from,
                    to,
                    dir,
                    listing,
                )[a] == copy_of_entry(from, to, dir, listing[i].name),
    decreases listing.len(),
{
    let all = copies(from, to, dir, listing);
    if listing.len() > 0 {
        let shorter = listing.drop_last();
        let before = copies(from, to, dir, shorter);
        lemma_copies(from, to, dir, shorter);
        let n = listing.len() - 1;
        assert forall|a: int| 0 <= a < all.len() implies exists|i: int|
            0 <= i < listing.len() && !listing[i].directory && #[trigger] all[a] == copy_of_entry(
                from,
                to,
                dir,
                #[trigger] listing[i].name,
            ) by {
            if a < before.len() {
                let i = choose|i: int|
                    0 <= i < shorter.len() && !shorter[i].directory && before[a] == copy_of_entry(
                        from,
                        to,
                        dir,
                        #[trigger] shorter[i].name,
                    );
                assert(listing[i] == shorter[i]);
                assert(all[a] == before[a]);
            } else {
                assert(all[a] == copy_of_entry(from, to, dir, listing[n].name));
            }
        }
        assert forall|i: int| 0 <= i < listing.len() && !(#[trigger] listing[i]).directory implies
            exists|a: int|
            0 <= a < all.len() && #[trigger] all[a] == copy_of_entry(
                from,
                to,
                dir,
                listing[i].name,
            ) by {
            if i < n {
                assert(listing[i] == shorter[i]);
                let a = choose|a: int|
                    0 <= a < before.len() && #[trigger] before[a] == copy_of_entry(
                        from,
                        to,
                        dir,
                        shorter[i].name,
                    );
                assert(all[a] == before[a]);
            } else {
                assert(all[before.len() as int] == copy_of_entry(from, to, dir, listing[n].name));
            }
        }
    }
}

/// Each element of `subdirectories` is a directory of the listing.
pub proof fn lemma_subdirectories_found(dir: Seq<Seq<char>>, listing: Seq<DirEntryView>, a: int)
    requires
        0 <= a < subdirectories(dir, listing).len(),
    ensures
        exists|i: int|
            0 <= i < listing.len() && listing[i].directory && subdirectories(dir, listing)[a]
                == below_entry(dir, #[trigger] listing[i].name),
    decreases listing.len(),
{
    let shorter = listing.drop_last();
    let before = subdirectories(dir, shorter);
    let n = listing.len() - 1;
    if a < before.len() {
        lemma_subdirectories_found(dir, shorter, a);
        let i = choose|i: int|
            0 <= i < shorter.len() && shorter[i].directory && before[a] == below_entry(
                dir,
                #[trigger] shorter[i].name,
            );
        assert(listing[i] == shorter[i]);
    } else {
        assert(listing[n].directory);
        assert(subdirectories(dir, listing)[a] == below_entry(dir, listing[n].name));
    }
}

/// Each directory of the listing is among `subdirectories`.
pub proof fn lemma_subdirectories_hold(dir: Seq<Seq<char>>, listing: Seq<DirEntryView>, i: int)
    requires
        0 <= i < listing.len(),
        listing[i].directory,
    ensures
        exists|a: int|
            0 <= a < subdirectories(dir, listing).len() && #[trigger] subdirectories(
                dir,
                listing,
            )[a] == below_entry(dir, listing[i].name),
    decreases listing.len(),
{
    let shorter = listing.drop_last();
    let before = subdirectories(dir, shorter);
    let all = subdirectories(dir, listing);
    let n = listing.len() - 1;
    if i < n {
        assert(listing[i] == shorter[i]);
        lemma_subdirectories_hold(dir, shorter, i);
        let a = choose|a: int|
            0 <= a < before.len() && #[trigger] before[a] == below_entry(dir, shorter[i].name);
        assert(all[a] == before[a]);
    } else {
        assert(all[before.len() as int] == below_entry(dir, listing[n].name));
    }
}

/// Where the listing names nothing twice, neither does `subdirectories`.
pub proof fn lemma_subdirectories_differ(
    dir: Seq<Seq<char>>,
    listing: Seq<DirEntryView>,
    a: int,
    b: int,
)
    requires
        forall|i: int, j: int|
            0 <= i < j < listing.len() ==> #[trigger] listing[i].name != #[trigger] listing[j].name,
        0 <= a < b < subdirectories(dir, listing).len(),
    ensures
        subdirectories(dir, listing)[a] != subdirectories(dir, listing)[b],
    decreases listing.len(),
{
    let shorter = listing.drop_last();
    let before = subdirectories(dir, shorter);
    let all = subdirectories(dir, listing);
    let n = listing.len() - 1;
    assert forall|i: int, j: int| 0 <= i < j < shorter.len() implies #[trigger] shorter[i].name
        != #[trigger] shorter[j].name by {
        assert(listing[i].name != listing[j].name);
    }
    if b < before.len() {
        lemma_subdirectories_differ(dir, shorter, a, b);
        assert(all[a] == before[a] && all[b] == before[b]);
    } else {
        lemma_subdirectories_found(dir, shorter, a);
        let i = choose|i: int|
            0 <= i < shorter.len() && shorter[i].directory && before[a] == below_entry(
                dir,
                #[trigger] shorter[i].name,
            );
        assert(all[a] == before[a]);
        assert(all[b] == below_entry(dir, listing[n].name));
        assert(listing[i].name != listing[n].name);
        assert(below_entry(dir, listing[i].name).last() == listing[i].name);
        assert(below_entry(dir, listing[n].name).last() == listing[n].name);
    }
}

impl TreeCopy {
    /// Begins the copy of `from` to `to`. For a file the steps that copy it
    /// are handed out at once and nothing is left to visit. For a directory
    /// no step is taken yet: the directory itself is the first to visit.
    pub fn start(from: Path, to: Path, directory: bool) -> (begun: (TreeCopy, Vec<FsAction>))
        ensures
            begun.0@.from == from@,
            begun.0@.to == to@,
            directory ==> begun.0@.pending == seq![Seq::<Seq<char>>::empty()] && begun.1@.len()
                == 0,
            !directory ==> begun.0@.pending.len() == 0 && actions_view(begun.1@) == file_steps(
                from@,
                to@,
            ),
    {
        let mut pending: Vec<Vec<String>> = Vec::new();
        let mut steps: Vec<FsAction> = Vec::new();
        if directory {
            pending.push(Vec::new());
            proof {
                assert(pending_view(pending@) =~= seq![Seq::<Seq<char>>::empty()]) by {
                    assert(texts(pending[0]@) =~= Seq::<Seq<char>>::empty());
                }
            }
        } else {
            match to.parent() {
                Some(parent) => {
                    steps.push(FsAction::CreateDirectory(parent));
                },
                None => {},
            }
            steps.push(FsAction::CopyBytes(from.clone(), to.clone()));
            proof {
                assert(actions_view(steps@) =~= file_steps(from@, to@));
            }
        }
        (TreeCopy { from, to, pending }, steps)
    }

    /// Whether every directory has been visited.
    pub fn is_done(&self) -> (done: bool)
        ensures
            done == (self@.pending.len() == 0),
    {
        self.pending.len() == 0
    }

    /// The directory of the source to list next; nothing when the walk is
    /// done.
    pub fn next(&self) -> (dir: Option<Path>)
        ensures
            self@.pending.len() == 0 ==> dir.is_none(),
            self@.pending.len() > 0 ==> dir.is_some() && dir.unwrap()@ == self@.from.extend(
                self@.pending.last(),
            ),
    {
        if self.pending.len() == 0 {
            None
        } else {
            Some(self.from.extend(&self.pending[self.pending.len() - 1]))
        }
    }

    /// Visits the next directory, whose entries are `listing`.
    ///
    /// The directory leaves the stack, and the directories among its entries
    /// are put on it in the order of the listing. The steps handed out
    /// create the directory in the copy and then copy its files, in the
    /// order of the listing. When the walk is done nothing happens.
    pub fn visit(&mut self, listing: &Vec<DirEntry>) -> (steps: Vec<FsAction>)
        ensures
            final(self)@.from == old(self)@.from,
            final(self)@.to == old(self)@.to,
            old(self)@.pending.len() == 0 ==> final(self)@.pending.len() == 0 && steps@.len() == 0,
            old(self)@.pending.len() > 0 ==> {
                &&& final(self)@.pending == old(self)@.pending.drop_last() + subdirectories(
                    old(self)@.pending.last(),
                    listing_view(listing@),
                )
                &&& actions_view(steps@) == visit_steps(
                    old(self)@.from,
                    old(self)@.to,
                    old(self)@.pending.last(),
                    listing_view(listing@),
                )
            },
    {
        let mut steps: Vec<FsAction> = Vec::new();
        let dir = match self.pending.pop() {
            Some(dir) => dir,
            None => {
                return steps;
            },
        };
        let ghost rest = pending_view(self.pending@);
        let ghost all = listing_view(listing@);
        proof {
            assert(rest =~= old(self)@.pending.drop_last());
            assert(texts(dir@) == old(self)@.pending.last());
        }
        let source = self.from.extend(&dir);
        let target = self.to.extend(&dir);
        steps.push(FsAction::CreateDirectory(target.clone()));
        let mut i: usize = 0;
        proof {
            assert(all.take(0) =~= Seq::<DirEntryView>::empty());
            assert(actions_view(steps@) =~= visit_steps(
                self.from@,
                self.to@,
                texts(dir@),
                all.take(0),
            ));
            assert(pending_view(self.pending@) =~= rest + subdirectories(texts(dir@), all.take(0)));
        }
        while i < listing.len()
            invariant
                i <= listing.len(),
                all == listing_view(listing@),
                source@ == self.from@.extend(texts(dir@)),
                target@ == self.to@.extend(texts(dir@)),
                self.from == old(self).from,
                self.to == old(self).to,
                actions_view(steps@) == visit_steps(
                    self.from@,
                    self.to@,
                    texts(dir@),
                    all.take(i as int),
                ),
                pending_view(self.pending@) == rest + subdirectories(
                    texts(dir@),
                    all.take(i as int),
                ),
            decreases listing.len() - i,
        {
            let entry = &listing[i];
            let ghost steps_before = actions_view(steps@);
            let ghost pending_before = pending_view(self.pending@);
            proof {
                assert(all.take(i + 1).drop_last() =~= all.take(i as int));
                assert(all.take(i + 1).last() == entry@);
            }
            if entry.directory {
                let mut below = copy_names(&dir, 0, dir.len());
                below.push(entry.name.clone());
                proof {
                    assert(texts(dir@).subrange(0, dir.len() as int) =~= texts(dir@));
                    assert(texts(below@) =~= texts(dir@).push(entry.name@));
                }
                self.pending.push(below);
                proof {
                    assert(pending_view(self.pending@) =~= pending_before.push(texts(below@)));
                    assert(pending_view(self.pending@) =~= rest + subdirectories(
                        texts(dir@),
                        all.take(i + 1),
                    ));
                }
            } else {
                let action = FsAction::CopyBytes(
                    source.child(entry.name.as_str()),
                    target.child(entry.name.as_str()),
                );
                steps.push(action);
                proof {
                    assert(actions_view(steps@) =~= steps_before.push(action@));
                    assert(actions_view(steps@) =~= visit_steps(
                        self.from@,
                        self.to@,
                        texts(dir@),
                        all.take(i + 1),
                    ));
                }
            }
            i = i + 1;
        }
        proof {
            assert(all.take(i as int) =~= all);
        }
        steps
    }
}

} // verus!
