//! The directories that a copy of a tree has still to visit: why none is
//! visited twice, none is forgotten, and the copy is whole when none is left.

use vstd::prelude::*;
use crate::action::ActionView;
use crate::path::{
    below_entry, lemma_extend, lemma_extend_child, lemma_extend_differs, lemma_moved_parent,
    lemma_parent_within, PathView,
};
use crate::tree::{is_directory, is_file, lists, rooted, DirEntryView, TreeView};
use crate::walk::{
    copies, copy_of_entry, lemma_copies, lemma_subdirectories_differ, lemma_subdirectories_found,
    lemma_subdirectories_hold, subdirectories, visit_steps,
};
use crate::copy::{apart, copied, copyable};
use crate::copy_progress::{
    built, lemma_complete, lemma_copied_above, lemma_source_untouched, steady,
};

verus! {

/// The directories still to visit are directories of the source that have
/// not been copied, each held by one that has been, and none is there
/// twice.
pub open spec fn queued(
    t: TreeView,
    from: PathView,
    dirs: Set<PathView>,
    pending: Seq<Seq<Seq<char>>>,
) -> bool {
    &&& forall|i: int|
        0 <= i < pending.len() ==> {
            &&& is_directory(t, from.extend(#[trigger] pending[i]))
            &&& !dirs.contains(from.extend(pending[i]))
            &&& pending[i].len() > 0 ==> dirs.contains(from.extend(pending[i].drop_last()))
        }
    &&& forall|i: int, j: int|
        0 <= i < j < pending.len() ==> #[trigger] pending[i] != #[trigger] pending[j]
}

/// The directory `d` is among those still to visit.
pub open spec fn awaited(from: PathView, pending: Seq<Seq<Seq<char>>>, d: PathView) -> bool {
    exists|i: int| 0 <= i < pending.len() && from.extend(#[trigger] pending[i]) == d
}

/// No directory of the source is lost: the top one has been copied or is
/// still to visit, and so is each directory held by one that has been
/// copied.
pub open spec fn reaching(
    t: TreeView,
    from: PathView,
    dirs: Set<PathView>,
    pending: Seq<Seq<Seq<char>>>,
) -> bool {
    &&& dirs.contains(from) || awaited(from, pending, from)
    &&& forall|c: PathView| #[trigger]
        is_directory(t, c) && c.is_within(from) && c != from && dirs.contains(c.parent())
            ==> dirs.contains(c) || awaited(from, pending, c)
}

/// Every file held by one of the directories in `dirs`, but for those held
/// by `open`, has been copied.
pub open spec fn gathered(
    t: TreeView,
    from: PathView,
    dirs: Set<PathView>,
    files: Set<PathView>,
    open: Option<PathView>,
) -> bool {
    forall|f: PathView| #[trigger]
        is_file(t, f) && f.is_within(from) && f != from && dirs.contains(f.parent()) && Some(
            f.parent(),
        ) != open ==> files.contains(f)
}

/// A directory found in the directory that is visited is fit for the
/// stack.
pub proof fn lemma_found_is_new(
    t: TreeView,
    from: PathView,
    to: PathView,
    dirs: Set<PathView>,
    files: Set<PathView>,
    r: Seq<Seq<char>>,
    listing: Seq<DirEntryView>,
    k: int,
)
    requires
        steady(t, from, to, dirs, files),
        !dirs.contains(from.extend(r)),
        lists(t, from.extend(r), listing),
        0 <= k < listing.len(),
        listing[k].directory,
    ensures
        is_directory(t, from.extend(below_entry(r, listing[k].name))),
        !dirs.insert(from.extend(r)).contains(from.extend(below_entry(r, listing[k].name))),
        below_entry(r, listing[k].name).drop_last() == r,
        below_entry(r, listing[k].name).len() > 0,
{
    let here = from.extend(r);
    let name = listing[k].name;
    lemma_extend(from, to, r);
    lemma_extend_child(from, r, name);
    assert(t.contains_key(here.child(name)));
    if dirs.contains(here.child(name)) {
        lemma_copied_above(t, from, to, dirs, files, here.child(name), here);
    }
}

/// Visiting the next directory keeps the stack in order.
pub proof fn lemma_visit_queues(
    t: TreeView,
    from: PathView,
    to: PathView,
    dirs: Set<PathView>,
    files: Set<PathView>,
    pending: Seq<Seq<Seq<char>>>,
    listing: Seq<DirEntryView>,
)
    requires
        steady(t, from, to, dirs, files),
        queued(t, from, dirs, pending),
        pending.len() > 0,
        lists(t, from.extend(pending.last()), listing),
    ensures
        queued(
            t,
            from,
            dirs.insert(from.extend(pending.last())),
            pending.drop_last() + subdirectories(pending.last(), listing),
        ),
{
    let r = pending.last();
    let here = from.extend(r);
    let more = dirs.insert(here);
    let found = subdirectories(r, listing);
    let after = pending.drop_last() + found;
    let kept = pending.len() - 1;
    assert(pending[kept] == r);
    assert(!dirs.contains(here));
    assert forall|i: int| 0 <= i < after.len() implies {
        &&& is_directory(t, from.extend(#[trigger] after[i]))
        &&& !more.contains(from.extend(after[i]))
        &&& after[i].len() > 0 ==> more.contains(from.extend(after[i].drop_last()))
    } by {
        if i < kept {
            assert(after[i] == pending[i]);
            assert(pending[i] != pending[kept]);
            lemma_extend_differs(from, pending[i], r);
        } else {
            assert(after[i] == found[i - kept]);
            lemma_subdirectories_found(r, listing, i - kept);
            let k = choose|k: int|
                0 <= k < listing.len() && listing[k].directory && found[i - kept] == below_entry(
                    r,
                    #[trigger] listing[k].name,
                );
            lemma_found_is_new(t, from, to, dirs, files, r, listing, k);
        }
    }
    assert forall|i: int, j: int| 0 <= i < j < after.len() implies #[trigger] after[i]
        != #[trigger] after[j] by {
        if j < kept {
            assert(after[i] == pending[i] && after[j] == pending[j]);
        } else if i >= kept {
            assert(after[i] == found[i - kept] && after[j] == found[j - kept]);
            lemma_subdirectories_differ(r, listing, i - kept, j - kept);
        } else {
            assert(after[i] == pending[i]);
            assert(after[j] == found[j - kept]);
            lemma_subdirectories_found(r, listing, j - kept);
            let k = choose|k: int|
                0 <= k < listing.len() && listing[k].directory && found[j - kept] == below_entry(
                    r,
                    #[trigger] listing[k].name,
                );
            lemma_found_is_new(t, from, to, dirs, files, r, listing, k);
            if after[i] == after[j] {
                assert(dirs.contains(from.extend(pending[i].drop_last())));
            }
        }
    }
}

/// A directory held by the directory that is visited is put on the stack.
pub proof fn lemma_child_is_awaited(
    t: TreeView,
    from: PathView,
    to: PathView,
    r: Seq<Seq<char>>,
    rest: Seq<Seq<Seq<char>>>,
    listing: Seq<DirEntryView>,
    c: PathView,
)
    requires
        lists(t, from.extend(r), listing),
        is_directory(t, c),
        c.is_within(from),
        c != from,
        c.parent() == from.extend(r),
    ensures
        awaited(from, rest + subdirectories(r, listing), c),
{
    let here = from.extend(r);
    let found = subdirectories(r, listing);
    let after = rest + found;
    lemma_moved_parent(c, from, to);
    let name = c.names.last();
    assert(c == here.child(name));
    let k = choose|k: int| 0 <= k < listing.len() && #[trigger] listing[k].name == name;
    assert(listing[k].directory);
    lemma_subdirectories_hold(r, listing, k);
    let a = choose|a: int|
        0 <= a < found.len() && #[trigger] found[a] == below_entry(r, listing[k].name);
    lemma_extend_child(from, r, name);
    assert(after[rest.len() + a] == found[a]);
    assert(from.extend(after[rest.len() + a]) == c);
}

/// Visiting the next directory loses no directory.
pub proof fn lemma_visit_reaches(
    t: TreeView,
    from: PathView,
    to: PathView,
    dirs: Set<PathView>,
    pending: Seq<Seq<Seq<char>>>,
    listing: Seq<DirEntryView>,
)
    requires
        reaching(t, from, dirs, pending),
        pending.len() > 0,
        lists(t, from.extend(pending.last()), listing),
    ensures
        reaching(
            t,
            from,
            dirs.insert(from.extend(pending.last())),
            pending.drop_last() + subdirectories(pending.last(), listing),
        ),
{
    let r = pending.last();
    let here = from.extend(r);
    let more = dirs.insert(here);
    let found = subdirectories(r, listing);
    let after = pending.drop_last() + found;
    let kept = pending.len() - 1;
    // The directories that were awaited are copied now or still awaited.
    assert forall|c: PathView| awaited(from, pending, c) implies more.contains(c) || awaited(
        from,
        after,
        c,
    ) by {
        let i = choose|i: int| 0 <= i < pending.len() && from.extend(#[trigger] pending[i]) == c;
        if i < kept {
            assert(after[i] == pending[i]);
        }
    }
    assert forall|c: PathView| #[trigger]
        is_directory(t, c) && c.is_within(from) && c != from && more.contains(
            c.parent(),
        ) implies more.contains(c) || awaited(from, after, c) by {
        if c.parent() == here {
            lemma_child_is_awaited(t, from, to, r, pending.drop_last(), listing, c);
        } else {
            assert(dirs.contains(c.parent()));
        }
    }
}

/// With nothing left to visit, every directory of the source has been
/// copied.
pub proof fn lemma_all_visited(t: TreeView, from: PathView, dirs: Set<PathView>, p: PathView)
    requires
        rooted(t),
        reaching(t, from, dirs, Seq::empty()),
        is_directory(t, p),
        p.is_within(from),
    ensures
        dirs.contains(p),
    decreases p.names.len(),
{
    if p != from {
        lemma_parent_within(p, from);
        lemma_all_visited(t, from, dirs, p.parent());
    }
}

/// The path from which a step copies, where the step is a copy.
pub open spec fn source_of(step: ActionView) -> PathView {
    match step {
        ActionView::CopyBytes(from, _) => from,
        ActionView::Rename(from, _) => from,
        ActionView::CreateFile(p) => p,
        ActionView::CreateDirectory(p) => p,
        ActionView::RemoveFile(p) => p,
        ActionView::RemoveDirectory(p) => p,
    }
}

/// The tree built so far lists the directories of the source as the tree
/// at the start does.
pub proof fn lemma_listing_of_source(
    t: TreeView,
    from: PathView,
    to: PathView,
    dirs: Set<PathView>,
    files: Set<PathView>,
    d: PathView,
    listing: Seq<DirEntryView>,
)
    requires
        apart(from, to),
        d.is_within(from),
        lists(built(t, from, to, dirs, files), d, listing),
    ensures
        lists(t, d, listing),
{
    let cur = built(t, from, to, dirs, files);
    assert forall|name: Seq<char>|
        cur.contains_key(d.child(name)) == t.contains_key(d.child(name)) && (t.contains_key(
            d.child(name),
        ) ==> cur[d.child(name)] == t[d.child(name)]) by {
        assert(d.child(name).is_within(from)) by {
            assert(from.names =~= d.child(name).names.subrange(0, from.names.len() as int));
        }
        lemma_source_untouched(t, from, to, dirs, files, d.child(name));
    }
    assert forall|i: int| 0 <= i < listing.len() implies {
        &&& t.contains_key(d.child(#[trigger] listing[i].name))
        &&& listing[i].directory == is_directory(t, d.child(listing[i].name))
    } by {
        assert(cur.contains_key(d.child(listing[i].name)));
    }
    assert forall|name: Seq<char>| #[trigger] t.contains_key(d.child(name)) implies exists|i: int|
        0 <= i < listing.len() && #[trigger] listing[i].name == name by {
        assert(cur.contains_key(d.child(name)));
    }
}

/// The file that a step of a visit copies.
pub proof fn lemma_step_copies_file(
    t: TreeView,
    from: PathView,
    to: PathView,
    r: Seq<Seq<char>>,
    listing: Seq<DirEntryView>,
    a: int,
)
    requires
        lists(t, from.extend(r), listing),
        1 <= a < visit_steps(from, to, r, listing).len(),
    ensures
        ({
            let step = visit_steps(from, to, r, listing)[a];
            let f = source_of(step);
            &&& step == ActionView::CopyBytes(f, f.moved(from, to))
            &&& f.is_within(from)
            &&& f != from
            &&& f.names.len() > 0
            &&& f.parent() == from.extend(r)
            &&& is_file(t, f)
        }),
{
    let all = copies(from, to, r, listing);
    lemma_copies(from, to, r, listing);
    assert(visit_steps(from, to, r, listing)[a] == all[a - 1]);
    let i = choose|i: int|
        0 <= i < listing.len() && !listing[i].directory && #[trigger] all[a - 1] == copy_of_entry(
            from,
            to,
            r,
            #[trigger] listing[i].name,
        );
    let name = listing[i].name;
    let f = from.extend(r).child(name);
    lemma_extend_child(from, r, name);
    lemma_extend_child(to, r, name);
    lemma_extend(from, to, below_entry(r, name));
    assert(t.contains_key(f));
}

/// Every file of the directory that was visited is copied by a step of the
/// visit.
pub proof fn lemma_file_has_step(
    t: TreeView,
    from: PathView,
    to: PathView,
    r: Seq<Seq<char>>,
    listing: Seq<DirEntryView>,
    f: PathView,
)
    requires
        lists(t, from.extend(r), listing),
        is_file(t, f),
        f.is_within(from),
        f != from,
        f.parent() == from.extend(r),
    ensures
        exists|a: int|
            1 <= a < visit_steps(from, to, r, listing).len() && source_of(
                #[trigger] visit_steps(from, to, r, listing)[a],
            ) == f,
{
    let here = from.extend(r);
    let all = copies(from, to, r, listing);
    lemma_moved_parent(f, from, to);
    let name = f.names.last();
    assert(f == here.child(name));
    let k = choose|k: int| 0 <= k < listing.len() && #[trigger] listing[k].name == name;
    assert(!listing[k].directory);
    lemma_copies(from, to, r, listing);
    let a = choose|a: int|
        0 <= a < all.len() && #[trigger] all[a] == copy_of_entry(from, to, r, listing[k].name);
    assert(visit_steps(from, to, r, listing)[a + 1] == all[a]);
}

/// One directory more among the copied ones leaves one less to copy.
pub proof fn lemma_counts(t: TreeView, dirs: Set<PathView>, d: PathView)
    requires
        t.dom().finite(),
        forall|e: PathView| #[trigger] dirs.contains(e) ==> t.contains_key(e),
        t.contains_key(d),
        !dirs.contains(d),
    ensures
        dirs.finite(),
        dirs.insert(d).len() == dirs.len() + 1,
        dirs.insert(d).len() <= t.dom().len(),
{
    assert(dirs.subset_of(t.dom()));
    vstd::set_lib::lemma_len_subset(dirs, t.dom());
    assert(dirs.insert(d).subset_of(t.dom()));
    vstd::set_lib::lemma_len_subset(dirs.insert(d), t.dom());
}

/// With nothing left to visit the copy is whole.
pub proof fn lemma_walked(
    t: TreeView,
    from: PathView,
    to: PathView,
    dirs: Set<PathView>,
    files: Set<PathView>,
)
    requires
        rooted(t),
        apart(from, to),
        steady(t, from, to, dirs, files),
        reaching(t, from, dirs, Seq::empty()),
        gathered(t, from, dirs, files, None),
    ensures
        built(t, from, to, dirs, files) == copied(t, from, to),
        copyable(t, from, to),
{
    assert(dirs.contains(from));
    assert(from.is_within(from));
    assert forall|p: PathView| #[trigger] p.is_within(from) && is_directory(
        t,
        p,
    ) implies dirs.contains(p) by {
        lemma_all_visited(t, from, dirs, p);
    }
    assert forall|p: PathView| #[trigger] p.is_within(from) && is_file(t, p) implies files.contains(
        p,
    ) by {
        lemma_parent_within(p, from);
        assert(is_directory(t, p.parent()));
        lemma_all_visited(t, from, dirs, p.parent());
    }
    lemma_complete(t, from, to, dirs, files);
}

} // verus!
