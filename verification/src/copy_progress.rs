//! A copy of a tree as far as it has come: the tree that the steps taken so
//! far have built, and what each further step finds and gives.

use vstd::prelude::*;
use crate::action::ActionView;
use crate::path::{
    lemma_comparable, lemma_moved_back, lemma_moved_parent, lemma_moved_within,
    lemma_parent_within, lemma_within_both, lemma_within_chain, PathView,
};
use crate::tree::{
    allowed, effect, feasible, is_directory, is_file, lemma_file_is_alone, rooted, run,
    takes_file, NodeView, TreeView,
};
use crate::walk::file_steps;
use crate::copy::{
    apart, between, clashes, copied, copyable, lemma_apart, same_elsewhere,
};

verus! {

/// The tree `t` with the copy as far as it has come: the directories in
/// `dirs` and the files in `files` stand at their places below `to`.
pub open spec fn built(
    t: TreeView,
    from: PathView,
    to: PathView,
    dirs: Set<PathView>,
    files: Set<PathView>,
) -> TreeView {
    Map::new(
        |q: PathView|
            t.contains_key(q) || (dirs.contains(from) && to.is_within(q)) || covered(
                from,
                to,
                dirs,
                files,
                q,
            ),
        |q: PathView|
            if covered(from, to, dirs, files, q) {
                t[q.moved(to, from)]
            } else if t.contains_key(q) {
                t[q]
            } else {
                NodeView::Directory
            },
    )
}

/// The path `q` is the place of an entry that has been copied.
pub open spec fn covered(
    from: PathView,
    to: PathView,
    dirs: Set<PathView>,
    files: Set<PathView>,
    q: PathView,
) -> bool {
    q.is_within(to) && (dirs.contains(q.moved(to, from)) || files.contains(q.moved(to, from)))
}

/// What holds of the entries copied so far: they are entries of the source,
/// each was copied after the directory that holds it, and none clashed.
pub open spec fn steady(
    t: TreeView,
    from: PathView,
    to: PathView,
    dirs: Set<PathView>,
    files: Set<PathView>,
) -> bool {
    &&& forall|d: PathView| #[trigger]
        dirs.contains(d) ==> {
            &&& d.is_within(from)
            &&& is_directory(t, d)
            &&& !is_file(t, d.moved(from, to))
        }
    &&& forall|d: PathView, e: PathView|
        #![trigger dirs.contains(d), d.is_within(e)]
        dirs.contains(d) && d.is_within(e) && e.is_within(from) ==> dirs.contains(e)
    &&& forall|f: PathView| #[trigger]
        files.contains(f) ==> {
            &&& f.is_within(from)
            &&& f != from
            &&& is_file(t, f)
            &&& !is_directory(t, f.moved(from, to))
            &&& dirs.contains(f.parent())
        }
    &&& dirs.contains(from) ==> forall|q: PathView|
        #![trigger to.is_within(q)]
        #![trigger is_file(t, q)]
        to.is_within(q) ==> !is_file(t, q)
}

/// With a directory among the copied ones, every directory between it and
/// the top of the source is among them.
pub proof fn lemma_copied_above(
    t: TreeView,
    from: PathView,
    to: PathView,
    dirs: Set<PathView>,
    files: Set<PathView>,
    d: PathView,
    e: PathView,
)
    requires
        steady(t, from, to, dirs, files),
        dirs.contains(d),
        d.is_within(e),
        e.is_within(from),
    ensures
        dirs.contains(e),
{
}

/// In the tree built so far, the source stands as it stood.
pub proof fn lemma_source_untouched(
    t: TreeView,
    from: PathView,
    to: PathView,
    dirs: Set<PathView>,
    files: Set<PathView>,
    p: PathView,
)
    requires
        apart(from, to),
        p.is_within(from),
    ensures
        built(t, from, to, dirs, files).contains_key(p) == t.contains_key(p),
        t.contains_key(p) ==> built(t, from, to, dirs, files)[p] == t[p],
{
    lemma_apart(p, from, to);
}

/// In the tree built so far, the copy of a copied directory is a
/// directory.
pub proof fn lemma_copy_of_directory(
    t: TreeView,
    from: PathView,
    to: PathView,
    dirs: Set<PathView>,
    files: Set<PathView>,
    d: PathView,
)
    requires
        steady(t, from, to, dirs, files),
        dirs.contains(d),
    ensures
        is_directory(built(t, from, to, dirs, files), d.moved(from, to)),
{
    lemma_moved_back(d, from, to);
}

/// One entry more among the copied ones covers its place and nothing else.
pub proof fn lemma_covered_more(
    from: PathView,
    to: PathView,
    dirs: Set<PathView>,
    files: Set<PathView>,
    p: PathView,
    q: PathView,
)
    requires
        p.is_within(from),
    ensures
        covered(from, to, dirs.insert(p), files, q) == (covered(from, to, dirs, files, q) || q
            == p.moved(from, to)),
        covered(from, to, dirs, files.insert(p), q) == (covered(from, to, dirs, files, q) || q
            == p.moved(from, to)),
{
    lemma_moved_back(p, from, to);
    if q.is_within(to) {
        lemma_moved_back(q, to, from);
    }
}

/// In the tree built so far, every directory above the place of the next
/// directory stands already.
pub proof fn lemma_way_is_made(
    t: TreeView,
    from: PathView,
    to: PathView,
    dirs: Set<PathView>,
    files: Set<PathView>,
    d: PathView,
    q: PathView,
)
    requires
        apart(from, to),
        steady(t, from, to, dirs, files),
        d.is_within(from),
        d != from,
        dirs.contains(d.parent()),
        d.moved(from, to).is_within(q),
        q != d.moved(from, to),
    ensures
        is_directory(built(t, from, to, dirs, files), q),
{
    let cur = built(t, from, to, dirs, files);
    let target = d.moved(from, to);
    lemma_moved_back(d, from, to);
    lemma_moved_parent(d, from, to);
    lemma_copied_above(t, from, to, dirs, files, d.parent(), from);
    lemma_comparable(target, q, to);
    if to.is_within(q) {
        assert(!is_file(t, q));
        if q.is_within(to) {
            lemma_within_both(q, to);
            lemma_moved_back(from, from, to);
            lemma_copy_of_directory(t, from, to, dirs, files, from);
        } else {
            assert(!covered(from, to, dirs, files, q));
            assert(cur.contains_key(q));
        }
    } else {
        let e = q.moved(to, from);
        lemma_moved_back(q, to, from);
        lemma_moved_within(target, q, to, from);
        assert(d.is_within(e));
        assert(e != d);
        lemma_parent_within(d, e);
        lemma_copied_above(t, from, to, dirs, files, d.parent(), e);
        lemma_copy_of_directory(t, from, to, dirs, files, e);
    }
}

/// Creating the copy of the next directory: when it is allowed, and what it
/// gives.
pub proof fn lemma_directory_step(
    t: TreeView,
    from: PathView,
    to: PathView,
    dirs: Set<PathView>,
    files: Set<PathView>,
    d: PathView,
)
    requires
        rooted(t),
        apart(from, to),
        steady(t, from, to, dirs, files),
        d.is_within(from),
        is_directory(t, d),
        !dirs.contains(d),
        d != from ==> d.names.len() > 0 && dirs.contains(d.parent()),
    ensures
        allowed(
            built(t, from, to, dirs, files),
            ActionView::CreateDirectory(d.moved(from, to)),
        ) <==> (if d == from {
            forall|q: PathView|
                #![trigger to.is_within(q)]
                #![trigger is_file(t, q)]
                to.is_within(q) ==> !is_file(t, q)
        } else {
            !is_file(t, d.moved(from, to))
        }),
        allowed(built(t, from, to, dirs, files), ActionView::CreateDirectory(d.moved(from, to)))
            ==> {
            &&& effect(
                built(t, from, to, dirs, files),
                ActionView::CreateDirectory(d.moved(from, to)),
            ) == built(t, from, to, dirs.insert(d), files)
            &&& steady(t, from, to, dirs.insert(d), files)
        },
{
    let cur = built(t, from, to, dirs, files);
    let target = d.moved(from, to);
    let step = ActionView::CreateDirectory(target);
    let next = built(t, from, to, dirs.insert(d), files);
    lemma_moved_back(d, from, to);
    assert(!files.contains(d));
    assert(!covered(from, to, dirs, files, target));
    if d == from {
        assert(target == to);
        // Nothing has been copied yet.
        assert forall|e: PathView| !dirs.contains(e) by {
            if dirs.contains(e) {
                lemma_copied_above(t, from, to, dirs, files, e, from);
            }
        }
        assert forall|f: PathView| !files.contains(f) by {
            if files.contains(f) {
                assert(dirs.contains(f.parent()));
            }
        }
        assert(cur =~= t);
        if allowed(cur, step) {
            assert forall|q: PathView| #[trigger] to.is_within(q) implies !is_file(t, q) by {
                assert(target.is_within(q));
            }
        }
    } else {
        assert forall|q: PathView| target.is_within(q) && q != target implies is_directory(
            cur,
            q,
        ) by {
            lemma_way_is_made(t, from, to, dirs, files, d, q);
        }
        assert(is_file(cur, target) == is_file(t, target));
        if !is_file(t, target) {
            assert forall|q: PathView| #[trigger] target.is_within(q) implies !is_file(cur, q) by {
                if q != target {
                    assert(is_directory(cur, q));
                }
            }
        } else {
            assert(target.is_within(target));
        }
    }
    if allowed(cur, step) {
        assert(target.is_within(target));
        assert(!is_file(cur, target));
        assert forall|q: PathView|
            effect(cur, step).contains_key(q) == next.contains_key(q) && (next.contains_key(q)
                ==> effect(cur, step)[q] == next[q]) by {
            lemma_covered_more(from, to, dirs, files, d, q);
            if q == target {
            } else if target.is_within(q) {
                if d == from {
                } else {
                    assert(is_directory(cur, q));
                }
            }
        }
        assert(effect(cur, step) =~= next);
        assert(steady(t, from, to, dirs.insert(d), files)) by {
            if d == from {
                assert forall|q: PathView| to.is_within(q) implies !is_file(t, q) by {
                    assert(target.is_within(q));
                }
            } else {
                lemma_copied_above(t, from, to, dirs, files, d.parent(), from);
            }
            let more = dirs.insert(d);
            assert forall|a: PathView, e: PathView|
                #![trigger more.contains(a), a.is_within(e)]
                more.contains(a) && a.is_within(e) && e.is_within(from) implies more.contains(
                e,
            ) by {
                if a == d && e != d {
                    if d == from {
                        lemma_within_both(e, from);
                    } else {
                        lemma_parent_within(d, e);
                        lemma_copied_above(t, from, to, dirs, files, d.parent(), e);
                    }
                }
            }
        }
    }
}

/// Copying the next file: when it is allowed, and what it gives.
pub proof fn lemma_file_step(
    t: TreeView,
    from: PathView,
    to: PathView,
    dirs: Set<PathView>,
    files: Set<PathView>,
    f: PathView,
)
    requires
        rooted(t),
        apart(from, to),
        steady(t, from, to, dirs, files),
        f.is_within(from),
        f != from,
        is_file(t, f),
        f.names.len() > 0,
        dirs.contains(f.parent()),
    ensures
        allowed(
            built(t, from, to, dirs, files),
            ActionView::CopyBytes(f, f.moved(from, to)),
        ) <==> !is_directory(t, f.moved(from, to)),
        allowed(built(t, from, to, dirs, files), ActionView::CopyBytes(f, f.moved(from, to)))
            ==> {
            &&& effect(built(t, from, to, dirs, files), ActionView::CopyBytes(f, f.moved(from, to)))
                == built(t, from, to, dirs, files.insert(f))
            &&& steady(t, from, to, dirs, files.insert(f))
        },
{
    let cur = built(t, from, to, dirs, files);
    let target = f.moved(from, to);
    let step = ActionView::CopyBytes(f, target);
    let next = built(t, from, to, dirs, files.insert(f));
    lemma_moved_back(f, from, to);
    lemma_moved_parent(f, from, to);
    lemma_source_untouched(t, from, to, dirs, files, f);
    lemma_copy_of_directory(t, from, to, dirs, files, f.parent());
    assert(!dirs.contains(f));
    assert(is_file(cur, f));
    assert(cur[f] == t[f]);
    assert(target.names.len() > 0);
    assert(is_directory(cur, target.parent()));
    assert(is_directory(cur, target) == is_directory(t, target)) by {
        if covered(from, to, dirs, files, target) {
            assert(files.contains(f));
        }
    }
    assert(allowed(cur, step) == takes_file(cur, target));
    if allowed(cur, step) {
        let made = effect(cur, step);
        assert(made == cur.insert(target, t[f]));
        assert forall|q: PathView|
            #![trigger made.contains_key(q)]
            #![trigger next.contains_key(q)]
            made.contains_key(q) == next.contains_key(q) && (next.contains_key(q) ==> made[q]
                == next[q]) by {
            lemma_covered_more(from, to, dirs, files, f, q);
            if q == target {
                assert(covered(from, to, dirs, files.insert(f), q));
                assert(target.moved(to, from) == f);
            }
        }
        assert(made =~= next);
    }
}

/// With every directory and every file of the source copied, the copy is
/// whole, and nothing stood in its way.
pub proof fn lemma_complete(
    t: TreeView,
    from: PathView,
    to: PathView,
    dirs: Set<PathView>,
    files: Set<PathView>,
)
    requires
        rooted(t),
        apart(from, to),
        steady(t, from, to, dirs, files),
        is_directory(t, from),
        forall|p: PathView| #[trigger] p.is_within(from) && is_directory(t, p) ==> dirs.contains(p),
        forall|p: PathView| #[trigger] p.is_within(from) && is_file(t, p) ==> files.contains(p),
    ensures
        built(t, from, to, dirs, files) == copied(t, from, to),
        copyable(t, from, to),
{
    assert(from.is_within(from));
    assert(dirs.contains(from));
    assert forall|q: PathView| q.is_within(to) implies (covered(from, to, dirs, files, q)
        <==> t.contains_key(q.moved(to, from))) by {
        lemma_moved_back(q, to, from);
        let p = q.moved(to, from);
        if t.contains_key(p) {
            assert(p.is_within(from));
        }
    }
    assert(built(t, from, to, dirs, files) =~= copied(t, from, to));
    assert forall|p: PathView| t.contains_key(p) && p.is_within(from) implies !clashes(
        t,
        p,
        from,
        to,
    ) by {
        lemma_moved_back(p, from, to);
        if t[p] is Directory {
            assert(dirs.contains(p));
        } else {
            assert(files.contains(p));
        }
    }
    assert forall|q: PathView| to.is_within(q) && q != to implies !is_file(t, q) by {}
}

/// What the one or two steps that copy a file are and do.
pub proof fn lemma_file_steps(t: TreeView, from: PathView, to: PathView)
    ensures
        to.names.len() > 0 ==> {
            let first = ActionView::CreateDirectory(to.parent());
            let second = ActionView::CopyBytes(from, to);
            &&& file_steps(from, to).len() == 2
            &&& file_steps(from, to).take(0) == Seq::<ActionView>::empty()
            &&& file_steps(from, to).take(1) == seq![first]
            &&& run(t, seq![first]) == effect(t, first)
            &&& feasible(t, seq![first]) == allowed(t, first)
            &&& run(t, file_steps(from, to)) == effect(effect(t, first), second)
            &&& feasible(t, file_steps(from, to)) == (allowed(t, first) && allowed(
                effect(t, first),
                second,
            ))
        },
        to.names.len() == 0 ==> {
            let only = ActionView::CopyBytes(from, to);
            &&& file_steps(from, to).len() == 1
            &&& file_steps(from, to).take(0) == Seq::<ActionView>::empty()
            &&& run(t, file_steps(from, to)) == effect(t, only)
            &&& feasible(t, file_steps(from, to)) == allowed(t, only)
        },
{
    let steps = file_steps(from, to);
    assert(steps.take(0) =~= Seq::<ActionView>::empty());
    if to.names.len() > 0 {
        let first = ActionView::CreateDirectory(to.parent());
        assert(steps.take(1) =~= seq![first]);
        assert(steps.drop_last() =~= seq![first]);
        assert(seq![first].drop_last() =~= Seq::<ActionView>::empty());
        assert(run(t, seq![first]) == effect(run(t, seq![first].drop_last()), first));
        assert(feasible(t, seq![first]) == (feasible(t, seq![first].drop_last()) && allowed(
            run(t, seq![first].drop_last()),
            first,
        )));
    } else {
        let only = ActionView::CopyBytes(from, to);
        assert(steps.drop_last() =~= Seq::<ActionView>::empty());
        assert(steps.last() == only);
        assert(run(t, steps.drop_last()) == t);
        assert(feasible(t, steps.drop_last()));
        assert(run(t, steps) == effect(run(t, steps.drop_last()), steps.last()));
        assert(feasible(t, steps) == (feasible(t, steps.drop_last()) && allowed(
            run(t, steps.drop_last()),
            steps.last(),
        )));
    }
}

/// Copying a single file: the steps can be taken exactly where the file can
/// be copied, they give the copy, and they touch nothing elsewhere.
pub proof fn lemma_file_copy(t: TreeView, from: PathView, to: PathView)
    requires
        rooted(t),
        is_file(t, from),
        apart(from, to),
    ensures
        feasible(t, file_steps(from, to)) == copyable(t, from, to),
        feasible(t, file_steps(from, to)) ==> run(t, file_steps(from, to)) == copied(t, from, to),
        forall|k: int|
            0 <= k <= file_steps(from, to).len() && feasible(
                t,
                #[trigger] file_steps(from, to).take(k),
            ) ==> same_elsewhere(t, run(t, file_steps(from, to).take(k)), to) && between(
                t,
                run(t, file_steps(from, to).take(k)),
                copied(t, from, to),
            ),
{
    lemma_file_steps(t, from, to);
    lemma_moved_back(from, from, to);
    lemma_apart(from, from, to);
    let steps = file_steps(from, to);
    let second = ActionView::CopyBytes(from, to);
    assert forall|p: PathView| t.contains_key(p) && p.is_within(from) implies p == from by {
        lemma_file_is_alone(t, from, p);
    }
    assert(from.is_within(from));
    if to.names.len() > 0 {
        let first = ActionView::CreateDirectory(to.parent());
        let made = effect(t, first);
        assert(to.parent().is_within(to.parent()));
        // The directories above `to` are those that its parent lies within.
        assert forall|q: PathView| (to.is_within(q) && q != to) == to.parent().is_within(q) by {
            if to.is_within(q) && q != to {
                lemma_parent_within(to, q);
            }
            if to.parent().is_within(q) {
                assert(to.is_within(to.parent())) by {
                    assert(to.parent().names =~= to.names.subrange(
                        0,
                        to.parent().names.len() as int,
                    ));
                }
                lemma_within_chain(to, to.parent(), q);
            }
        }
        assert(same_elsewhere(t, made, to));
        assert(between(t, t, copied(t, from, to)));
        if allowed(t, first) {
            assert(between(t, made, copied(t, from, to))) by {
                assert forall|q: PathView| #[trigger] made.contains_key(q) implies copied(
                    t,
                    from,
                    to,
                ).contains_key(q) && (made[q] == copied(t, from, to)[q] || (t.contains_key(q)
                    && made[q] == t[q])) by {
                    if !t.contains_key(q) {
                        assert(to.parent().is_within(q));
                        assert(to.is_within(q) && q != to);
                        if q.is_within(to) {
                            lemma_within_both(q, to);
                        }
                    }
                }
            }
        }
        if allowed(t, first) {
            assert(is_directory(made, to.parent())) by {
                assert(!is_file(t, to.parent()));
            }
            assert(made.contains_key(from) && made[from] == t[from]);
            assert(made.contains_key(to) == t.contains_key(to));
            assert(t.contains_key(to) ==> made[to] == t[to]);
            assert(allowed(made, second) == !is_directory(t, to));
            if allowed(made, second) {
                let done = effect(made, second);
                assert forall|q: PathView|
                    #![trigger done.contains_key(q)]
                    #![trigger copied(t, from, to).contains_key(q)]
                    done.contains_key(q) == copied(t, from, to).contains_key(q) && (
                    done.contains_key(q) ==> done[q] == copied(t, from, to)[q]) by {
                    if q.is_within(to) {
                        lemma_moved_back(q, to, from);
                        if t.contains_key(q.moved(to, from)) {
                            assert(q.moved(to, from) == from);
                            assert(q == to);
                        }
                    }
                }
                assert(done =~= copied(t, from, to));
                assert(same_elsewhere(t, done, to));
                assert(between(t, done, copied(t, from, to)));
            }
        }
        assert(feasible(t, steps) == copyable(t, from, to)) by {
            if copyable(t, from, to) {
                assert(!clashes(t, from, from, to));
                assert forall|q: PathView| #[trigger] to.parent().is_within(q) implies !is_file(
                    t,
                    q,
                ) by {
                    assert(to.is_within(q) && q != to);
                }
            }
            if feasible(t, steps) {
                assert forall|q: PathView| to.is_within(q) && q != to implies !is_file(t, q) by {
                    assert(to.parent().is_within(q));
                }
            }
        }
        assert forall|k: int| 0 <= k <= steps.len() && feasible(
            t,
            #[trigger] steps.take(k),
        ) implies same_elsewhere(t, run(t, steps.take(k)), to) && between(
            t,
            run(t, steps.take(k)),
            copied(t, from, to),
        ) by {
            if k == 2 {
                assert(steps.take(2) =~= steps);
            }
        }
    } else {
        assert(!takes_file(t, to));
        assert(clashes(t, from, from, to));
        assert(between(t, t, copied(t, from, to)));
        assert forall|k: int| 0 <= k <= steps.len() && feasible(
            t,
            #[trigger] steps.take(k),
        ) implies same_elsewhere(t, run(t, steps.take(k)), to) && between(
            t,
            run(t, steps.take(k)),
            copied(t, from, to),
        ) by {
            if k == 1 {
                assert(steps.take(1) =~= steps);
            }
        }
    }
}

/// The tree built so far lies between the tree at the start and the tree
/// with the whole copy.
pub proof fn lemma_built_between(
    t: TreeView,
    from: PathView,
    to: PathView,
    dirs: Set<PathView>,
    files: Set<PathView>,
)
    requires
        steady(t, from, to, dirs, files),
    ensures
        between(t, built(t, from, to, dirs, files), copied(t, from, to)),
{
    let now = built(t, from, to, dirs, files);
    let full = copied(t, from, to);
    assert forall|q: PathView| #[trigger] now.contains_key(q) implies full.contains_key(q) && (
    now[q] == full[q] || (t.contains_key(q) && now[q] == t[q])) by {
        if covered(from, to, dirs, files, q) {
            lemma_moved_back(q, to, from);
            assert(t.contains_key(q.moved(to, from)));
        } else if !t.contains_key(q) {
            assert(dirs.contains(from) && to.is_within(q));
            if q.is_within(to) {
                lemma_within_both(q, to);
                lemma_moved_back(from, from, to);
                assert(covered(from, to, dirs, files, q));
            }
        }
    }
}

/// The tree built so far differs from the tree at the start only at `to`,
/// below it and above it.
pub proof fn lemma_built_elsewhere(
    t: TreeView,
    from: PathView,
    to: PathView,
    dirs: Set<PathView>,
    files: Set<PathView>,
)
    ensures
        same_elsewhere(t, built(t, from, to, dirs, files), to),
{
}

/// Before anything is copied the tree is as it was.
pub proof fn lemma_built_nothing(t: TreeView, from: PathView, to: PathView)
    ensures
        built(t, from, to, Set::empty(), Set::empty()) == t,
        steady(t, from, to, Set::empty(), Set::empty()),
{
    assert(built(t, from, to, Set::empty(), Set::empty()) =~= t);
}

/// A step that is refused on the way shows that the copy cannot be made.
pub proof fn lemma_refused_directory(
    t: TreeView,
    from: PathView,
    to: PathView,
    dirs: Set<PathView>,
    files: Set<PathView>,
    d: PathView,
)
    requires
        rooted(t),
        apart(from, to),
        steady(t, from, to, dirs, files),
        d.is_within(from),
        is_directory(t, d),
        !dirs.contains(d),
        d != from ==> d.names.len() > 0 && dirs.contains(d.parent()),
        !allowed(built(t, from, to, dirs, files), ActionView::CreateDirectory(d.moved(from, to))),
    ensures
        !copyable(t, from, to),
{
    lemma_directory_step(t, from, to, dirs, files, d);
    lemma_moved_back(d, from, to);
    if d == from {
        let q = choose|q: PathView| to.is_within(q) && is_file(t, q);
        if q == to {
            assert(clashes(t, from, from, to));
        }
    } else {
        assert(clashes(t, d, from, to));
    }
}

/// A copy that is refused on the way shows that the copy cannot be made.
pub proof fn lemma_refused_file(
    t: TreeView,
    from: PathView,
    to: PathView,
    dirs: Set<PathView>,
    files: Set<PathView>,
    f: PathView,
)
    requires
        rooted(t),
        apart(from, to),
        steady(t, from, to, dirs, files),
        f.is_within(from),
        f != from,
        is_file(t, f),
        f.names.len() > 0,
        dirs.contains(f.parent()),
        !allowed(built(t, from, to, dirs, files), ActionView::CopyBytes(f, f.moved(from, to))),
    ensures
        !copyable(t, from, to),
{
    lemma_file_step(t, from, to, dirs, files, f);
    assert(clashes(t, f, from, to));
}

} // verus!
