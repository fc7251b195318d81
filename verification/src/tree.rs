//! A file tree held in memory: which paths exist, which of them are
//! directories, and what the files hold. It says what each step on a file
//! system does, and lets the plans of this library be carried out and
//! checked without touching a disk.

use vstd::prelude::*;
use crate::action::{actions_view, ActionView, FsAction};
use crate::error::Error;
use crate::path::{
    lemma_moved_back, lemma_moved_parent, lemma_parent_within, lemma_within_chain, root_view,
    Path, PathView,
};

verus! {

/// What stands at a path: a directory or a file with its bytes.
#[derive(Debug, PartialEq, Eq)]
pub enum Node {
    Directory,
    File(Vec<u8>),
}

/// What a [`Node`] stands for.
pub enum NodeView {
    Directory,
    File(Seq<u8>),
}

impl View for Node {
    type V = NodeView;

    open spec fn view(&self) -> NodeView {
        match self {
            Node::Directory => NodeView::Directory,
            Node::File(bytes) => NodeView::File(bytes@),
        }
    }
}

/// What a file tree holds: the node at each path that exists.
pub type TreeView = Map<PathView, NodeView>;

/// A directory stands at `p`.
pub open spec fn is_directory(t: TreeView, p: PathView) -> bool {
    t.contains_key(p) && t[p] is Directory
}

/// A file stands at `p`.
pub open spec fn is_file(t: TreeView, p: PathView) -> bool {
    t.contains_key(p) && t[p] is File
}

/// Every entry lies in a directory that exists, and the topmost ones, which
/// have no name, are directories.
pub open spec fn rooted(t: TreeView) -> bool {
    forall|p: PathView| #[trigger]
        t.contains_key(p) ==> (if p.names.len() > 0 {
            is_directory(t, p.parent())
        } else {
            t[p] is Directory
        })
}

/// A file can be put at `p`: the directory that is to hold it exists, and no
/// directory stands at `p` itself.
pub open spec fn takes_file(t: TreeView, p: PathView) -> bool {
    &&& p.names.len() > 0
    &&& is_directory(t, p.parent())
    &&& !is_directory(t, p)
}

/// Whether the step `a` can be taken on the tree `t`.
///
/// A file is created, or copied to, where its directory exists and no
/// directory stands at its path; the file to copy must exist. A directory
/// is created, with all above it, unless a file stands at its path or above
/// it. A file is removed where a file stands, a directory where a directory
/// stands. An entry is renamed where it exists and has a name, nothing
/// stands at its new path, the directory that is to hold it exists, and the
/// new path does not lie within the entry itself.
pub open spec fn allowed(t: TreeView, a: ActionView) -> bool {
    match a {
        ActionView::CreateFile(p) => takes_file(t, p),
        ActionView::CreateDirectory(p) => forall|q: PathView|
            #![trigger p.is_within(q)]
            #![trigger is_file(t, q)]
            p.is_within(q) ==> !is_file(t, q),
        ActionView::RemoveFile(p) => is_file(t, p),
        ActionView::RemoveDirectory(p) => is_directory(t, p),
        ActionView::CopyBytes(from, to) => is_file(t, from) && takes_file(t, to),
        ActionView::Rename(from, to) => {
            &&& t.contains_key(from)
            &&& from.names.len() > 0
            &&& to.names.len() > 0
            &&& is_directory(t, to.parent())
            &&& !t.contains_key(to)
            &&& !to.is_within(from)
        },
    }
}

/// The tree that the step `a` makes of the tree `t`, where it is allowed.
///
/// A created file is empty, also where a file stood before. A created
/// directory comes with every directory above it that was missing; what
/// stood there stays. A copied file holds the bytes of the file it was
/// copied from. A removed directory goes with all below it. A renamed entry
/// stands at its new path with all that lay below it.
pub open spec fn effect(t: TreeView, a: ActionView) -> TreeView {
    match a {
        ActionView::CreateFile(p) => t.insert(p, NodeView::File(Seq::empty())),
        ActionView::CreateDirectory(p) => Map::new(
            |q: PathView| t.contains_key(q) || p.is_within(q),
            |q: PathView|
                if t.contains_key(q) {
                    t[q]
                } else {
                    NodeView::Directory
                },
        ),
        ActionView::RemoveFile(p) => t.remove(p),
        ActionView::RemoveDirectory(p) => Map::new(
            |q: PathView| t.contains_key(q) && !q.is_within(p),
            |q: PathView| t[q],
        ),
        ActionView::CopyBytes(from, to) => t.insert(to, t[from]),
        ActionView::Rename(from, to) => Map::new(
            |q: PathView|
                (t.contains_key(q) && !q.is_within(from)) || (q.is_within(to) && t.contains_key(
                    q.moved(to, from),
                )),
            |q: PathView|
                if q.is_within(to) && t.contains_key(q.moved(to, from)) {
                    t[q.moved(to, from)]
                } else {
                    t[q]
                },
        ),
    }
}

/// The tree `t` with the first `k` directories on the way to `p` added
/// where they are missing.
pub open spec fn raised_to(t: TreeView, p: PathView, k: int) -> TreeView {
    Map::new(
        |q: PathView| t.contains_key(q) || (p.is_within(q) && q.names.len() < k),
        |q: PathView|
            if t.contains_key(q) {
                t[q]
            } else {
                NodeView::Directory
            },
    )
}

/// A path that `p` lies within is made of the first names of `p`.
pub proof fn lemma_within_is_ancestor(p: PathView, q: PathView)
    requires
        p.is_within(q),
    ensures
        q.names.len() <= p.names.len(),
        q == p.ancestor(q.names.len() as int),
{
    assert(q.names =~= p.names.take(q.names.len() as int));
}

/// What the next directory on the way to `p` finds, and what adding it
/// gives.
proof fn lemma_raise(t: TreeView, p: PathView, k: int)
    requires
        0 <= k <= p.names.len(),
        allowed(t, ActionView::CreateDirectory(p)),
    ensures
        !is_file(raised_to(t, p, k), p.ancestor(k)),
        k > 0 ==> is_directory(raised_to(t, p, k), p.ancestor(k).parent()),
        raised_to(t, p, k + 1) == (if raised_to(t, p, k).contains_key(p.ancestor(k)) {
            raised_to(t, p, k)
        } else {
            raised_to(t, p, k).insert(p.ancestor(k), NodeView::Directory)
        }),
{
    let now = raised_to(t, p, k);
    let above = p.ancestor(k);
    assert(p.is_within(above));
    assert(!is_file(t, above));
    if k > 0 {
        let parent = above.parent();
        assert(parent.names =~= p.names.take(k - 1));
        assert(p.is_within(parent));
        assert(!is_file(t, parent));
        assert(now.contains_key(parent));
    }
    let next = raised_to(t, p, k + 1);
    let expected = if now.contains_key(above) {
        now
    } else {
        now.insert(above, NodeView::Directory)
    };
    assert forall|q: PathView| next.contains_key(q) <==> expected.contains_key(q) by {
        if p.is_within(q) && q.names.len() < k + 1 && !(q.names.len() < k) {
            lemma_within_is_ancestor(p, q);
        }
    }
    assert(next =~= expected);
}

/// The tree that the steps make of `t`, taken in order.
pub open spec fn run(t: TreeView, steps: Seq<ActionView>) -> TreeView
    decreases steps.len(),
{
    if steps.len() == 0 {
        t
    } else {
        effect(run(t, steps.drop_last()), steps.last())
    }
}

/// Whether each of the steps is allowed on the tree that the steps before
/// it have made of `t`.
pub open spec fn feasible(t: TreeView, steps: Seq<ActionView>) -> bool
    decreases steps.len(),
{
    if steps.len() == 0 {
        true
    } else {
        feasible(t, steps.drop_last()) && allowed(run(t, steps.drop_last()), steps.last())
    }
}

/// One step more: the steps before it are taken first.
pub proof fn lemma_one_more(t: TreeView, steps: Seq<ActionView>, a: ActionView)
    ensures
        run(t, steps.push(a)) == effect(run(t, steps), a),
        feasible(t, steps.push(a)) == (feasible(t, steps) && allowed(run(t, steps), a)),
{
    assert(steps.push(a).drop_last() =~= steps);
}

/// Where all steps can be taken, so can the first ones.
pub proof fn lemma_feasible_so_far(t: TreeView, steps: Seq<ActionView>, k: int)
    requires
        0 <= k <= steps.len(),
        feasible(t, steps),
    ensures
        feasible(t, steps.take(k)),
    decreases steps.len(),
{
    if k < steps.len() {
        lemma_feasible_so_far(t, steps.drop_last(), k);
        assert(steps.drop_last().take(k) =~= steps.take(k));
    } else {
        assert(steps.take(k) =~= steps);
    }
}

/// One entry of a directory, as a listing gives it.
#[derive(Debug, PartialEq, Eq)]
pub struct DirEntry {
    pub name: String,
    pub directory: bool,
}

/// What a [`DirEntry`] stands for.
pub struct DirEntryView {
    pub name: Seq<char>,
    pub directory: bool,
}

impl View for DirEntry {
    type V = DirEntryView;

    open spec fn view(&self) -> DirEntryView {
        DirEntryView { name: self.name@, directory: self.directory }
    }
}

/// The views of the entries in `listing`, in order.
pub open spec fn listing_view(listing: Seq<DirEntry>) -> Seq<DirEntryView> {
    Seq::new(listing.len(), |i: int| listing[i]@)
}

/// `listing` names the entries of the directory `dir` of `t`: each of them
/// once, with its kind, and nothing else.
pub open spec fn lists(t: TreeView, dir: PathView, listing: Seq<DirEntryView>) -> bool {
    &&& forall|i: int|
        0 <= i < listing.len() ==> {
            &&& t.contains_key(dir.child(#[trigger] listing[i].name))
            &&& listing[i].directory == is_directory(t, dir.child(listing[i].name))
        }
    &&& forall|i: int, j: int|
        0 <= i < j < listing.len() ==> #[trigger] listing[i].name != #[trigger] listing[j].name
    &&& forall|name: Seq<char>| #[trigger]
        t.contains_key(dir.child(name)) ==> exists|i: int|
            0 <= i < listing.len() && #[trigger] listing[i].name == name
}

/// One path of the tree with what stands there.
struct Entry {
    path: Path,
    node: Node,
}

/// A file tree in memory.
pub struct FileTree {
    entries: Vec<Entry>,
}

/// The index at which `entries` holds the path `p`.
spec fn slot(entries: Seq<Entry>, p: PathView) -> int {
    choose|i: int| 0 <= i < entries.len() && entries[i].path@ == p
}

/// No path stands twice in `entries`.
spec fn distinct(entries: Seq<Entry>) -> bool {
    forall|i: int, j: int|
        0 <= i < j < entries.len() ==> #[trigger] entries[i].path@ != #[trigger] entries[j].path@
}

/// The tree that `entries` spell out.
spec fn tree_of(entries: Seq<Entry>) -> TreeView {
    Map::new(
        |p: PathView| exists|i: int| 0 <= i < entries.len() && #[trigger] entries[i].path@ == p,
        |p: PathView| entries[slot(entries, p)].node@,
    )
}

/// The paths of `entries`, in order.
spec fn paths_of(entries: Seq<Entry>) -> Seq<PathView> {
    Seq::new(entries.len(), |i: int| entries[i].path@)
}

/// Each entry stands in the tree under its path, with its node.
proof fn lemma_tree_of(entries: Seq<Entry>)
    requires
        distinct(entries),
    ensures
        forall|i: int|
            0 <= i < entries.len() ==> {
                &&& tree_of(entries).contains_key(#[trigger] entries[i].path@)
                &&& tree_of(entries)[entries[i].path@] == entries[i].node@
            },
        tree_of(entries).dom().finite(),
{
    assert forall|i: int| 0 <= i < entries.len() implies {
        &&& tree_of(entries).contains_key(#[trigger] entries[i].path@)
        &&& tree_of(entries)[entries[i].path@] == entries[i].node@
    } by {
        let p = entries[i].path@;
        let k = slot(entries, p);
        assert(0 <= k < entries.len() && entries[k].path@ == p);
        if k < i {
            assert(entries[k].path@ != entries[i].path@);
        }
        if i < k {
            assert(entries[i].path@ != entries[k].path@);
        }
    }
    let paths = paths_of(entries);
    vstd::seq_lib::seq_to_set_is_finite(paths);
    assert(tree_of(entries).dom() =~= paths.to_set()) by {
        assert forall|p: PathView| tree_of(entries).dom().contains(p) implies paths.to_set().contains(
            p,
        ) by {
            let i = slot(entries, p);
            assert(paths[i] == p);
        }
        assert forall|p: PathView| paths.to_set().contains(p) implies tree_of(
            entries,
        ).dom().contains(p) by {
            let i = choose|i: int| 0 <= i < paths.len() && paths[i] == p;
            assert(entries[i].path@ == p);
        }
    }
}

/// A new path at the end of the entries is a new key of the tree.
proof fn lemma_push(entries: Seq<Entry>, e: Entry)
    requires
        distinct(entries),
        !tree_of(entries).contains_key(e.path@),
    ensures
        distinct(entries.push(e)),
        tree_of(entries.push(e)) == tree_of(entries).insert(e.path@, e.node@),
{
    let after = entries.push(e);
    lemma_tree_of(entries);
    assert forall|i: int, j: int| 0 <= i < j < after.len() implies #[trigger] after[i].path@
        != #[trigger] after[j].path@ by {
        if j == entries.len() {
            assert(after[i] == entries[i]);
        } else {
            assert(entries[i].path@ != entries[j].path@);
        }
    }
    lemma_tree_of(after);
    assert forall|p: PathView| tree_of(entries).insert(e.path@, e.node@).contains_key(
        p,
    ) implies #[trigger] tree_of(after).contains_key(p) by {
        if p == e.path@ {
            assert(after[entries.len() as int].path@ == p);
        } else {
            let i = slot(entries, p);
            assert(after[i].path@ == p);
        }
    }
    assert forall|p: PathView| #[trigger] tree_of(after).contains_key(p) implies tree_of(
        entries,
    ).insert(e.path@, e.node@).contains_key(p) && tree_of(after)[p] == tree_of(entries).insert(
        e.path@,
        e.node@,
    )[p] by {
        let i = slot(after, p);
        if i < entries.len() {
            assert(entries[i].path@ == p);
            assert(after[i] == entries[i]);
        } else {
            assert(after[i] == e);
        }
    }
    assert(tree_of(after) =~= tree_of(entries).insert(e.path@, e.node@));
}

/// Another node under a path that is held changes the tree at that path.
proof fn lemma_update(entries: Seq<Entry>, i: int, e: Entry)
    requires
        distinct(entries),
        0 <= i < entries.len(),
        entries[i].path@ == e.path@,
    ensures
        distinct(entries.update(i, e)),
        tree_of(entries.update(i, e)) == tree_of(entries).insert(e.path@, e.node@),
{
    let after = entries.update(i, e);
    lemma_tree_of(entries);
    assert forall|a: int, b: int| 0 <= a < b < after.len() implies #[trigger] after[a].path@
        != #[trigger] after[b].path@ by {
        assert(entries[a].path@ != entries[b].path@);
    }
    lemma_tree_of(after);
    assert forall|p: PathView| tree_of(entries).insert(e.path@, e.node@).contains_key(
        p,
    ) implies #[trigger] tree_of(after).contains_key(p) by {
        if p == e.path@ {
            assert(after[i].path@ == p);
        } else {
            let k = slot(entries, p);
            assert(after[k].path@ == p);
        }
    }
    assert forall|p: PathView| #[trigger] tree_of(after).contains_key(p) implies tree_of(
        entries,
    ).insert(e.path@, e.node@).contains_key(p) && tree_of(after)[p] == tree_of(entries).insert(
        e.path@,
        e.node@,
    )[p] by {
        let k = slot(after, p);
        assert(entries[k].path@ == p);
        if k != i {
            assert(after[k] == entries[k]);
        }
    }
    assert(tree_of(after) =~= tree_of(entries).insert(e.path@, e.node@));
}

/// Without one of the entries the tree lacks the path of that entry.
proof fn lemma_remove(entries: Seq<Entry>, i: int)
    requires
        distinct(entries),
        0 <= i < entries.len(),
    ensures
        distinct(entries.remove(i)),
        tree_of(entries.remove(i)) == tree_of(entries).remove(entries[i].path@),
{
    let after = entries.remove(i);
    let gone = entries[i].path@;
    lemma_tree_of(entries);
    assert forall|a: int, b: int| 0 <= a < b < after.len() implies #[trigger] after[a].path@
        != #[trigger] after[b].path@ by {
        let a0 = if a < i { a } else { a + 1 };
        let b0 = if b < i { b } else { b + 1 };
        assert(after[a] == entries[a0]);
        assert(after[b] == entries[b0]);
        assert(entries[a0].path@ != entries[b0].path@);
    }
    lemma_tree_of(after);
    assert forall|p: PathView| tree_of(entries).remove(gone).contains_key(p) implies #[trigger]
        tree_of(after).contains_key(p) by {
        let k = slot(entries, p);
        let k1 = if k < i { k } else { k - 1 };
        assert(after[k1] == entries[k]);
        assert(after[k1].path@ == p);
    }
    assert forall|p: PathView| #[trigger] tree_of(after).contains_key(p) implies tree_of(
        entries,
    ).remove(gone).contains_key(p) && tree_of(after)[p] == tree_of(entries).remove(gone)[p] by {
        let k = slot(after, p);
        let k0 = if k < i { k } else { k + 1 };
        assert(after[k] == entries[k0]);
        if k0 < i {
            assert(entries[k0].path@ != entries[i].path@);
        } else {
            assert(entries[i].path@ != entries[k0].path@);
        }
    }
    assert(tree_of(after) =~= tree_of(entries).remove(gone));
}

/// A file put where a file can be put leaves every entry in a directory.
pub proof fn lemma_file_keeps_rooted(t: TreeView, p: PathView, node: NodeView)
    requires
        rooted(t),
        takes_file(t, p),
        node is File,
    ensures
        rooted(t.insert(p, node)),
{
    let after = t.insert(p, node);
    assert forall|q: PathView| #[trigger] after.contains_key(q) implies (if q.names.len() > 0 {
        is_directory(after, q.parent())
    } else {
        after[q] is Directory
    }) by {
        if q == p {
        } else {
            assert(t.contains_key(q));
        }
    }
}

/// Without one of its files a tree still has every entry in a directory.
pub proof fn lemma_file_removal_keeps_rooted(t: TreeView, p: PathView)
    requires
        rooted(t),
        is_file(t, p),
    ensures
        rooted(t.remove(p)),
{
    let after = t.remove(p);
    assert forall|q: PathView| #[trigger] after.contains_key(q) implies (if q.names.len() > 0 {
        is_directory(after, q.parent())
    } else {
        after[q] is Directory
    }) by {
        assert(t.contains_key(q));
    }
}

/// Without one of its directories and all below it, a tree still has every
/// entry in a directory.
pub proof fn lemma_directory_removal_keeps_rooted(t: TreeView, p: PathView)
    requires
        rooted(t),
    ensures
        rooted(effect(t, ActionView::RemoveDirectory(p))),
{
    let after = effect(t, ActionView::RemoveDirectory(p));
    assert forall|q: PathView| #[trigger] after.contains_key(q) implies (if q.names.len() > 0 {
        is_directory(after, q.parent())
    } else {
        after[q] is Directory
    }) by {
        assert(t.contains_key(q));
        if q.names.len() > 0 && q.parent().is_within(p) {
            assert(p.names.is_prefix_of(q.parent().names));
            assert(q.parent().names.is_prefix_of(q.names));
            assert(p.names.is_prefix_of(q.names));
        }
    }
}


/// Where the renaming of `from` to `to` puts the path `p`.
pub open spec fn renamed(p: PathView, from: PathView, to: PathView) -> PathView {
    if p.is_within(from) {
        p.moved(from, to)
    } else {
        p
    }
}

/// Nothing stands below a path at which nothing stands.
pub proof fn lemma_nothing_below(t: TreeView, p: PathView, q: PathView)
    requires
        rooted(t),
        !t.contains_key(p),
        q.is_within(p),
    ensures
        !t.contains_key(q),
{
    if t.contains_key(q) {
        lemma_above_is_directory(t, q, p);
    }
}

/// A renaming leaves every entry in a directory.
pub proof fn lemma_rename_keeps_rooted(t: TreeView, from: PathView, to: PathView)
    requires
        rooted(t),
        allowed(t, ActionView::Rename(from, to)),
    ensures
        rooted(effect(t, ActionView::Rename(from, to))),
{
    let after = effect(t, ActionView::Rename(from, to));
    assert forall|q: PathView| #[trigger] after.contains_key(q) implies (if q.names.len() > 0 {
        is_directory(after, q.parent())
    } else {
        after[q] is Directory
    }) by {
        if q.is_within(to) {
            lemma_nothing_below(t, to, q);
            lemma_moved_back(q, to, from);
            let p = q.moved(to, from);
            assert(t.contains_key(p));
            if q == to {
                if to.parent().is_within(from) {
                    assert(to.is_within(to.parent())) by {
                        assert(to.parent().names =~= to.names.subrange(
                            0,
                            to.parent().names.len() as int,
                        ));
                    }
                    lemma_within_chain(to, to.parent(), from);
                }
                if to.parent().is_within(to) {
                    assert(false);
                }
            } else {
                lemma_moved_parent(q, to, from);
                assert(p != from);
                assert(is_directory(t, p.parent()));
                assert(q.parent().moved(to, from) == p.parent());
            }
        } else {
            assert(t.contains_key(q) && !q.is_within(from));
            if q.names.len() > 0 {
                assert(is_directory(t, q.parent()));
                if q.parent().is_within(from) {
                    assert(q.is_within(q.parent())) by {
                        assert(q.parent().names =~= q.names.subrange(
                            0,
                            q.parent().names.len() as int,
                        ));
                    }
                    lemma_within_chain(q, q.parent(), from);
                }
                if q.parent().is_within(to) {
                    lemma_nothing_below(t, to, q.parent());
                }
            }
        }
    }
}

/// A file that was created where nothing stood is removed again, and the
/// tree is then as it was.
pub proof fn lemma_created_file_is_removed(t: TreeView, p: PathView)
    requires
        allowed(t, ActionView::CreateFile(p)),
        !t.contains_key(p),
    ensures
        allowed(effect(t, ActionView::CreateFile(p)), ActionView::RemoveFile(p)),
        effect(effect(t, ActionView::CreateFile(p)), ActionView::RemoveFile(p)) == t,
{
    assert(t.insert(p, NodeView::File(Seq::empty())).remove(p) =~= t);
}

/// A directory that was created where nothing stood, in a directory that
/// was there, is removed again, and the tree is then as it was.
pub proof fn lemma_created_directory_is_removed(t: TreeView, p: PathView)
    requires
        rooted(t),
        p.names.len() > 0,
        is_directory(t, p.parent()),
        !t.contains_key(p),
    ensures
        allowed(t, ActionView::CreateDirectory(p)),
        allowed(effect(t, ActionView::CreateDirectory(p)), ActionView::RemoveDirectory(p)),
        effect(effect(t, ActionView::CreateDirectory(p)), ActionView::RemoveDirectory(p)) == t,
{
    let made = effect(t, ActionView::CreateDirectory(p));
    let back = effect(made, ActionView::RemoveDirectory(p));
    assert(p.is_within(p));
    assert forall|q: PathView| #[trigger] p.is_within(q) implies q == p || is_directory(t, q) by {
        if q != p {
            lemma_parent_within(p, q);
            if p.parent() != q {
                lemma_above_is_directory(t, p.parent(), q);
            }
        }
    }
    assert forall|q: PathView|
        #![trigger back.contains_key(q)]
        #![trigger t.contains_key(q)]
        back.contains_key(q) == t.contains_key(q) && (t.contains_key(q) ==> back[q] == t[q]) by {
        if q.is_within(p) {
            lemma_nothing_below(t, p, q);
        }
    }
    assert(back =~= t);
}

/// A renaming can be taken back, and taking it back gives the tree as it
/// was.
pub proof fn lemma_rename_back(t: TreeView, from: PathView, to: PathView)
    requires
        rooted(t),
        allowed(t, ActionView::Rename(from, to)),
    ensures
        allowed(effect(t, ActionView::Rename(from, to)), ActionView::Rename(to, from)),
        effect(effect(t, ActionView::Rename(from, to)), ActionView::Rename(to, from)) == t,
{
    let there = effect(t, ActionView::Rename(from, to));
    let back = effect(there, ActionView::Rename(to, from));
    lemma_moved_back(from, from, to);
    assert(from.is_within(from) && to.is_within(to));
    assert(there.contains_key(to));
    // Nothing of the tree stood at the new place or below it.
    assert forall|q: PathView| q.is_within(to) implies !t.contains_key(q) by {
        lemma_nothing_below(t, to, q);
    }
    assert(!from.is_within(to));
    assert(!there.contains_key(from));
    // The directory that held the entry still stands.
    if from.parent().is_within(from) {
        assert(from.names.len() <= from.parent().names.len());
    }
    assert(is_directory(t, from.parent()));
    assert(there.contains_key(from.parent()) && there[from.parent()] == t[from.parent()]);
    assert forall|q: PathView|
        #![trigger back.contains_key(q)]
        #![trigger t.contains_key(q)]
        back.contains_key(q) == t.contains_key(q) && (t.contains_key(q) ==> back[q] == t[q]) by {
        if q.is_within(from) {
            lemma_moved_back(q, from, to);
        }
    }
    assert(back =~= t);
}

/// Entries of which each has moved to its place under a renaming spell out
/// the renamed tree.
proof fn lemma_rename(before: Seq<Entry>, after: Seq<Entry>, from: PathView, to: PathView)
    requires
        distinct(before),
        rooted(tree_of(before)),
        allowed(tree_of(before), ActionView::Rename(from, to)),
        after.len() == before.len(),
        forall|i: int|
            0 <= i < before.len() ==> (#[trigger] after[i]).path@ == renamed(
                before[i].path@,
                from,
                to,
            ) && after[i].node@ == before[i].node@,
    ensures
        distinct(after),
        tree_of(after) == effect(tree_of(before), ActionView::Rename(from, to)),
{
    let t = tree_of(before);
    let made = effect(t, ActionView::Rename(from, to));
    lemma_tree_of(before);
    assert forall|i: int, j: int| 0 <= i < j < after.len() implies #[trigger] after[i].path@
        != #[trigger] after[j].path@ by {
        let p = before[i].path@;
        let q = before[j].path@;
        assert(p != q);
        assert(t.contains_key(p) && t.contains_key(q));
        if p.is_within(from) {
            lemma_moved_back(p, from, to);
            if q.is_within(from) {
                lemma_moved_back(q, from, to);
            } else {
                lemma_nothing_below(t, to, p.moved(from, to));
            }
        } else if q.is_within(from) {
            lemma_moved_back(q, from, to);
            lemma_nothing_below(t, to, q.moved(from, to));
        }
    }
    lemma_tree_of(after);
    assert forall|x: PathView| #[trigger] tree_of(after).contains_key(x) implies made.contains_key(
        x,
    ) && made[x] == tree_of(after)[x] by {
        let i = slot(after, x);
        let p = before[i].path@;
        assert(t.contains_key(p));
        assert(after[i].path@ == x);
        if p.is_within(from) {
            lemma_moved_back(p, from, to);
        } else {
            if x.is_within(to) {
                lemma_nothing_below(t, to, x);
            }
        }
    }
    assert forall|x: PathView| #[trigger] made.contains_key(x) implies tree_of(after).contains_key(
        x,
    ) by {
        if x.is_within(to) && t.contains_key(x.moved(to, from)) {
            lemma_moved_back(x, to, from);
            let i = slot(before, x.moved(to, from));
            assert(after[i].path@ == x);
        } else {
            let i = slot(before, x);
            assert(after[i].path@ == x);
        }
    }
    assert(tree_of(after) =~= made);
}

impl View for FileTree {
    type V = TreeView;

    closed spec fn view(&self) -> TreeView {
        tree_of(self.entries@)
    }
}

impl FileTree {
    /// Each path is held once.
    pub closed spec fn sound(&self) -> bool {
        distinct(self.entries@)
    }

    /// The tree is well formed: it holds finitely many paths, each once, and
    /// each entry lies in a directory.
    pub open spec fn wf(&self) -> bool {
        &&& self.sound()
        &&& self@.dom().finite()
        &&& rooted(self@)
    }

    /// A tree that holds the root directory and nothing else.
    pub fn new() -> (tree: FileTree)
        ensures
            tree.wf(),
            tree@ == Map::<PathView, NodeView>::empty().insert(root_view(), NodeView::Directory),
    {
        let mut entries: Vec<Entry> = Vec::new();
        entries.push(Entry { path: Path::root(), node: Node::Directory });
        let tree = FileTree { entries };
        proof {
            assert(tree.entries@[0].path@ == root_view());
            assert(tree.entries@[0].node@ == NodeView::Directory);
            lemma_tree_of(tree.entries@);
            assert(tree@ =~= Map::<PathView, NodeView>::empty().insert(
                root_view(),
                NodeView::Directory,
            ));
        }
        tree
    }

    /// Where the entries hold `path`, if they do.
    fn find(&self, path: &Path) -> (found: Option<usize>)
        requires
            self.sound(),
        ensures
            match found {
                Some(i) => {
                    &&& i < self.entries.len()
                    &&& self.entries[i as int].path@ == path@
                    &&& self@.contains_key(path@)
                    &&& self@[path@] == self.entries[i as int].node@
                },
                None => !self@.contains_key(path@),
            },
    {
        let mut i: usize = 0;
        while i < self.entries.len()
            invariant
                self.sound(),
                i <= self.entries.len(),
                forall|j: int| 0 <= j < i ==> self.entries[j].path@ != path@,
            decreases self.entries.len() - i,
        {
            if self.entries[i].path.same(path) {
                proof {
                    lemma_tree_of(self.entries@);
                }
                return Some(i);
            }
            i = i + 1;
        }
        None
    }

    /// Whether anything stands at `path`.
    pub fn holds(&self, path: &Path) -> (found: bool)
        requires
            self.wf(),
        ensures
            found == self@.contains_key(path@),
    {
        self.find(path).is_some()
    }

    /// Whether a directory stands at `path`.
    pub fn is_dir(&self, path: &Path) -> (found: bool)
        requires
            self.wf(),
        ensures
            found == is_directory(self@, path@),
    {
        match self.find(path) {
            Some(i) => match &self.entries[i].node {
                Node::Directory => true,
                Node::File(_) => false,
            },
            None => false,
        }
    }

    /// The bytes of the file at `path`; nothing where no file stands there.
    pub fn read(&self, path: &Path) -> (bytes: Option<Vec<u8>>)
        requires
            self.wf(),
        ensures
            match bytes {
                Some(b) => is_file(self@, path@) && self@[path@] == NodeView::File(b@),
                None => !is_file(self@, path@),
            },
    {
        match self.find(path) {
            Some(i) => match &self.entries[i].node {
                Node::Directory => None,
                Node::File(held) => Some(copy_of(held)),
            },
            None => None,
        }
    }
    /// Puts a file with the given bytes at `path`, in place of the file
    /// that may stand there.
    fn put_file(&mut self, path: &Path, bytes: Vec<u8>) -> (outcome: Result<(), Error>)
        requires
            old(self).wf(),
        ensures
            final(self).wf(),
            outcome.is_ok() == takes_file(old(self)@, path@),
            outcome.is_ok() ==> final(self)@ == old(self)@.insert(path@, NodeView::File(bytes@)),
            outcome matches Err(e) ==> e == Error::IoFailure && final(self)@ == old(self)@,
    {
        let parent = match path.parent() {
            Some(parent) => parent,
            None => {
                return Err(Error::IoFailure);
            },
        };
        if !self.is_dir(&parent) {
            return Err(Error::IoFailure);
        }
        let entry = Entry { path: path.clone(), node: Node::File(bytes) };
        match self.find(path) {
            Some(i) => {
                match &self.entries[i].node {
                    Node::Directory => {
                        return Err(Error::IoFailure);
                    },
                    Node::File(_) => {},
                }
                proof {
                    lemma_update(self.entries@, i as int, entry);
                    lemma_file_keeps_rooted(self@, path@, entry.node@);
                }
                self.entries.set(i, entry);
            },
            None => {
                proof {
                    lemma_push(self.entries@, entry);
                    lemma_file_keeps_rooted(self@, path@, entry.node@);
                }
                self.entries.push(entry);
            },
        }
        proof {
            lemma_tree_of(self.entries@);
        }
        Ok(())
    }

    /// Puts a directory at `dir` unless something stands there.
    fn add_directory(&mut self, dir: Path)
        requires
            old(self).wf(),
            !is_file(old(self)@, dir@),
            dir@.names.len() > 0 ==> is_directory(old(self)@, dir@.parent()),
        ensures
            final(self).wf(),
            final(self)@ == (if old(self)@.contains_key(dir@) {
                old(self)@
            } else {
                old(self)@.insert(dir@, NodeView::Directory)
            }),
    {
        if self.find(&dir).is_none() {
            let entry = Entry { path: dir, node: Node::Directory };
            proof {
                lemma_push(self.entries@, entry);
                let before = self@;
                let after = before.insert(entry.path@, NodeView::Directory);
                assert forall|q: PathView| #[trigger] after.contains_key(q) implies (if q.names.len()
                    > 0 {
                    is_directory(after, q.parent())
                } else {
                    after[q] is Directory
                }) by {
                    if q != entry.path@ {
                        assert(before.contains_key(q));
                    }
                }
            }
            self.entries.push(entry);
            proof {
                lemma_tree_of(self.entries@);
            }
        }
    }

    /// Creates the directory `path` and every directory above it that is
    /// missing, unless a file stands in the way.
    fn make_directories(&mut self, path: &Path) -> (outcome: Result<(), Error>)
        requires
            old(self).wf(),
        ensures
            final(self).wf(),
            outcome.is_ok() == allowed(old(self)@, ActionView::CreateDirectory(path@)),
            outcome.is_ok() ==> final(self)@ == effect(
                old(self)@,
                ActionView::CreateDirectory(path@),
            ),
            outcome matches Err(e) ==> e == Error::IoFailure && final(self)@ == old(self)@,
    {
        let n: usize = path.depth();
        let mut k: usize = 0;
        while k < n
            invariant
                k <= n,
                n == path@.names.len(),
                self.wf(),
                *self == *old(self),
                forall|j: int| 0 <= j < k ==> !is_file(self@, #[trigger] path@.ancestor(j)),
            decreases n - k,
        {
            let above = path.ancestor(k);
            if self.holds(&above) && !self.is_dir(&above) {
                proof {
                    assert(path@.is_within(above@));
                    assert(is_file(self@, above@));
                }
                return Err(Error::IoFailure);
            }
            k = k + 1;
        }
        if self.holds(path) && !self.is_dir(path) {
            proof {
                assert(path@.is_within(path@));
            }
            return Err(Error::IoFailure);
        }
        proof {
            assert forall|q: PathView| #[trigger] path@.is_within(q) implies !is_file(self@, q) by {
                lemma_within_is_ancestor(path@, q);
                if q.names.len() == n {
                    assert(path@.names.take(n as int) =~= path@.names);
                }
            }
        }
        k = 0;
        while k < n
            invariant
                k <= n,
                n == path@.names.len(),
                self.wf(),
                old(self).wf(),
                allowed(old(self)@, ActionView::CreateDirectory(path@)),
                self@ == raised_to(old(self)@, path@, k as int),
            decreases n - k,
        {
            let above = path.ancestor(k);
            proof {
                lemma_raise(old(self)@, path@, k as int);
            }
            self.add_directory(above);
            k = k + 1;
        }
        proof {
            lemma_raise(old(self)@, path@, n as int);
            assert(path@.ancestor(n as int) == path@) by {
                assert(path@.names.take(n as int) =~= path@.names);
            }
        }
        self.add_directory(path.clone());
        proof {
            assert(raised_to(old(self)@, path@, n + 1) =~= effect(
                old(self)@,
                ActionView::CreateDirectory(path@),
            )) by {
                assert forall|q: PathView| #[trigger] path@.is_within(q) implies q.names.len()
                    < n + 1 by {
                    lemma_within_is_ancestor(path@, q);
                }
            }
        }
        Ok(())
    }

    /// Removes the file at `path`.
    fn drop_file(&mut self, path: &Path) -> (outcome: Result<(), Error>)
        requires
            old(self).wf(),
        ensures
            final(self).wf(),
            outcome.is_ok() == is_file(old(self)@, path@),
            outcome.is_ok() ==> final(self)@ == old(self)@.remove(path@),
            outcome matches Err(e) ==> e == Error::IoFailure && final(self)@ == old(self)@,
    {
        match self.find(path) {
            Some(i) => {
                match &self.entries[i].node {
                    Node::Directory => {
                        return Err(Error::IoFailure);
                    },
                    Node::File(_) => {},
                }
                proof {
                    lemma_remove(self.entries@, i as int);
                    lemma_file_removal_keeps_rooted(self@, path@);
                }
                self.entries.remove(i);
                proof {
                    lemma_tree_of(self.entries@);
                }
                Ok(())
            },
            None => Err(Error::IoFailure),
        }
    }

    /// Removes the directory at `path` with all that lies below it.
    fn drop_directory(&mut self, path: &Path) -> (outcome: Result<(), Error>)
        requires
            old(self).wf(),
        ensures
            final(self).wf(),
            outcome.is_ok() == is_directory(old(self)@, path@),
            outcome.is_ok() ==> final(self)@ == effect(
                old(self)@,
                ActionView::RemoveDirectory(path@),
            ),
            outcome matches Err(e) ==> e == Error::IoFailure && final(self)@ == old(self)@,
    {
        if !self.is_dir(path) {
            return Err(Error::IoFailure);
        }
        let mut i: usize = 0;
        while i < self.entries.len()
            invariant
                i <= self.entries.len(),
                self.sound(),
                forall|j: int| 0 <= j < i ==> !(#[trigger] self.entries[j]).path@.is_within(path@),
                forall|q: PathView| #[trigger]
                    self@.contains_key(q) ==> old(self)@.contains_key(q) && self@[q] == old(
                        self,
                    )@[q],
                forall|q: PathView|
                    old(self)@.contains_key(q) && !q.is_within(path@) ==> #[trigger] self@.contains_key(
                        q,
                    ),
            decreases self.entries.len() - i,
        {
            if self.entries[i].path.is_within(path) {
                let ghost before = self@;
                let ghost gone = self.entries[i as int].path@;
                proof {
                    lemma_remove(self.entries@, i as int);
                }
                self.entries.remove(i);
                proof {
                    assert(self@ == before.remove(gone));
                    assert(gone.is_within(path@));
                }
            } else {
                i = i + 1;
            }
        }
        proof {
            lemma_tree_of(self.entries@);
            assert forall|q: PathView| #[trigger] self@.contains_key(q) implies !q.is_within(
                path@,
            ) by {
                let j = slot(self.entries@, q);
                assert(!self.entries[j].path@.is_within(path@));
            }
            assert(self@ =~= effect(old(self)@, ActionView::RemoveDirectory(path@)));
            lemma_directory_removal_keeps_rooted(old(self)@, path@);
        }
        Ok(())
    }

    /// Gives `from`, with all below it, the place `to`.
    fn rename_entry(&mut self, from: &Path, to: &Path) -> (outcome: Result<(), Error>)
        requires
            old(self).wf(),
        ensures
            final(self).wf(),
            outcome.is_ok() == allowed(old(self)@, ActionView::Rename(from@, to@)),
            outcome.is_ok() ==> final(self)@ == effect(old(self)@, ActionView::Rename(from@, to@)),
            outcome matches Err(e) ==> e == Error::IoFailure && final(self)@ == old(self)@,
    {
        if from.depth() == 0 || !self.holds(from) || self.holds(to) || to.is_within(from) {
            return Err(Error::IoFailure);
        }
        let holder = match to.parent() {
            Some(holder) => holder,
            None => {
                return Err(Error::IoFailure);
            },
        };
        if !self.is_dir(&holder) {
            return Err(Error::IoFailure);
        }
        let ghost before = self.entries@;
        let mut i: usize = 0;
        while i < self.entries.len()
            invariant
                i <= self.entries.len(),
                self.entries.len() == before.len(),
                forall|j: int|
                    0 <= j < i ==> (#[trigger] self.entries[j]).path@ == renamed(
                        before[j].path@,
                        from@,
                        to@,
                    ) && self.entries[j].node@ == before[j].node@,
                forall|j: int| i <= j < before.len() ==> #[trigger] self.entries[j] == before[j],
            decreases self.entries.len() - i,
        {
            if self.entries[i].path.is_within(from) {
                let entry = self.entries.remove(i);
                let below = entry.path.below(from);
                let moved = Entry { path: to.extend(&below), node: entry.node };
                self.entries.insert(i, moved);
            }
            i = i + 1;
        }
        proof {
            lemma_rename(before, self.entries@, from@, to@);
            lemma_rename_keeps_rooted(old(self)@, from@, to@);
            lemma_tree_of(self.entries@);
        }
        Ok(())
    }

    /// Writes `bytes` into the file at `path`, which is created if the
    /// directory that is to hold it exists. Fails, and leaves the tree as
    /// it is, where that directory is missing or `path` is a directory.
    pub fn write(&mut self, path: &Path, bytes: Vec<u8>) -> (outcome: Result<(), Error>)
        requires
            old(self).wf(),
        ensures
            final(self).wf(),
            outcome.is_ok() == takes_file(old(self)@, path@),
            outcome.is_ok() ==> final(self)@ == old(self)@.insert(path@, NodeView::File(bytes@)),
            outcome matches Err(e) ==> e == Error::IoFailure && final(self)@ == old(self)@,
    {
        self.put_file(path, bytes)
    }

    /// Takes one step on the tree. The step is taken exactly where it is
    /// allowed; where it is not, the tree stays as it is.
    pub fn apply(&mut self, action: &FsAction) -> (outcome: Result<(), Error>)
        requires
            old(self).wf(),
        ensures
            final(self).wf(),
            outcome.is_ok() == allowed(old(self)@, action@),
            outcome.is_ok() ==> final(self)@ == effect(old(self)@, action@),
            outcome matches Err(e) ==> e == Error::IoFailure && final(self)@ == old(self)@,
    {
        match action {
            FsAction::CreateFile(path) => self.put_file(path, Vec::new()),
            FsAction::CreateDirectory(path) => self.make_directories(path),
            FsAction::RemoveFile(path) => self.drop_file(path),
            FsAction::RemoveDirectory(path) => self.drop_directory(path),
            FsAction::CopyBytes(from, to) => match self.read(from) {
                Some(bytes) => self.put_file(to, bytes),
                None => Err(Error::IoFailure),
            },
            FsAction::Rename(from, to) => self.rename_entry(from, to),
        }
    }

    /// Takes the steps in order and stops at the first that is not allowed.
    ///
    /// All are taken exactly where each is allowed in its turn. Otherwise
    /// the tree is left as the steps before the refused one have made it,
    /// and the index of the refused step is handed back.
    pub fn apply_all(&mut self, steps: &Vec<FsAction>) -> (outcome: Result<(), usize>)
        requires
            old(self).wf(),
        ensures
            final(self).wf(),
            outcome.is_ok() == feasible(old(self)@, actions_view(steps@)),
            outcome.is_ok() ==> final(self)@ == run(old(self)@, actions_view(steps@)),
            outcome matches Err(k) ==> {
                &&& k < steps.len()
                &&& feasible(old(self)@, actions_view(steps@).take(k as int))
                &&& final(self)@ == run(old(self)@, actions_view(steps@).take(k as int))
                &&& !allowed(final(self)@, steps[k as int]@)
            },
    {
        let ghost all = actions_view(steps@);
        let mut i: usize = 0;
        proof {
            assert(all.take(0) =~= Seq::<ActionView>::empty());
        }
        while i < steps.len()
            invariant
                i <= steps.len(),
                all == actions_view(steps@),
                self.wf(),
                feasible(old(self)@, all.take(i as int)),
                self@ == run(old(self)@, all.take(i as int)),
            decreases steps.len() - i,
        {
            proof {
                assert(all.take(i + 1).drop_last() =~= all.take(i as int));
                assert(all.take(i + 1).last() == steps[i as int]@);
            }
            match self.apply(&steps[i]) {
                Ok(()) => {},
                Err(_) => {
                    proof {
                        if feasible(old(self)@, all) {
                            lemma_feasible_so_far(old(self)@, all, i + 1);
                        }
                    }
                    return Err(i);
                },
            }
            i = i + 1;
        }
        proof {
            assert(all.take(i as int) =~= all);
        }
        Ok(())
    }

    /// Lists the directory at `dir`: each of its entries once, with its
    /// kind. Nothing where no directory stands there.
    pub fn list(&self, dir: &Path) -> (listing: Option<Vec<DirEntry>>)
        requires
            self.wf(),
        ensures
            listing.is_some() == is_directory(self@, dir@),
            listing matches Some(entries) ==> lists(self@, dir@, listing_view(entries@)),
    {
        if !self.is_dir(dir) {
            return None;
        }
        let depth: usize = dir.depth();
        let mut listing: Vec<DirEntry> = Vec::new();
        let mut i: usize = 0;
        while i < self.entries.len()
            invariant
                i <= self.entries.len(),
                self.wf(),
                depth == dir@.names.len(),
                forall|x: int|
                    0 <= x < listing.len() ==> exists|j: int|
                        0 <= j < i && (#[trigger] self.entries[j]).path@ == dir@.child(
                            #[trigger] listing[x].name@,
                        ) && listing[x].directory == (self.entries[j].node@ is Directory),
                forall|x: int, y: int|
                    0 <= x < y < listing.len() ==> #[trigger] listing[x].name@
                        != #[trigger] listing[y].name@,
                forall|j: int, name: Seq<char>|
                    0 <= j < i && (#[trigger] self.entries[j]).path@ == #[trigger] dir@.child(name)
                        ==> exists|x: int| 0 <= x < listing.len() && #[trigger] listing[x].name@ == name,
            decreases self.entries.len() - i,
        {
            let path = &self.entries[i].path;
            if path.depth() > depth && path.depth() - 1 == depth && path.is_within(dir) {
                let name = path.names[depth].clone();
                let directory = match &self.entries[i].node {
                    Node::Directory => true,
                    Node::File(_) => false,
                };
                proof {
                    assert(path@ =~= dir@.child(name@)) by {
                        assert(path@.names =~= dir@.names.push(name@));
                    }
                    assert forall|x: int| 0 <= x < listing.len() implies #[trigger] listing[x].name@
                        != name@ by {
                        let j = choose|j: int|
                            0 <= j < i && (#[trigger] self.entries[j]).path@ == dir@.child(
                                listing[x].name@,
                            ) && listing[x].directory == (self.entries[j].node@ is Directory);
                        assert(self.entries[j].path@ != self.entries[i as int].path@);
                    }
                }
                let ghost before = listing@;
                listing.push(DirEntry { name, directory });
                proof {
                    assert forall|x: int| 0 <= x < listing.len() implies exists|j: int|
                        0 <= j < i + 1 && (#[trigger] self.entries[j]).path@ == dir@.child(
                            #[trigger] listing[x].name@,
                        ) && listing[x].directory == (self.entries[j].node@ is Directory) by {
                        if x < before.len() {
                            assert(listing[x] == before[x]);
                            let j = choose|j: int|
                                0 <= j < i && (#[trigger] self.entries[j]).path@ == dir@.child(
                                    before[x].name@,
                                ) && before[x].directory == (self.entries[j].node@ is Directory);
                            assert(0 <= j < i + 1);
                        } else {
                            assert(self.entries[i as int].path@ == dir@.child(listing[x].name@));
                        }
                    }
                    assert forall|j: int, name0: Seq<char>|
                        0 <= j < i + 1 && (#[trigger] self.entries[j]).path@ == #[trigger] dir@.child(
                            name0,
                        ) implies exists|x: int|
                        0 <= x < listing.len() && #[trigger] listing[x].name@ == name0 by {
                        if j < i {
                            let x = choose|x: int|
                                0 <= x < before.len() && #[trigger] before[x].name@ == name0;
                            assert(listing[x] == before[x]);
                        } else {
                            assert(dir@.child(name0).names.last() == name0);
                            assert(dir@.child(name@).names.last() == name@);
                            assert(listing[before.len() as int].name@ == name0);
                        }
                    }
                }
            } else {
                proof {
                    assert forall|name0: Seq<char>| self.entries[i as int].path@ == dir@.child(
                        name0,
                    ) implies false by {
                        assert(dir@.names.is_prefix_of(dir@.child(name0).names));
                    }
                }
            }
            i = i + 1;
        }
        proof {
            lemma_tree_of(self.entries@);
            let view = listing_view(listing@);
            assert forall|x: int| 0 <= x < view.len() implies {
                &&& self@.contains_key(dir@.child(#[trigger] view[x].name))
                &&& view[x].directory == is_directory(self@, dir@.child(view[x].name))
            } by {
                let j = choose|j: int|
                    0 <= j < i && (#[trigger] self.entries[j]).path@ == dir@.child(listing[x].name@)
                        && listing[x].directory == (self.entries[j].node@ is Directory);
                assert(self@.contains_key(self.entries[j].path@));
            }
            assert forall|x: int, y: int| 0 <= x < y < view.len() implies #[trigger] view[x].name
                != #[trigger] view[y].name by {
                assert(listing[x].name@ != listing[y].name@);
            }
            assert forall|name: Seq<char>| #[trigger]
                self@.contains_key(dir@.child(name)) implies exists|x: int|
                0 <= x < view.len() && #[trigger] view[x].name == name by {
                let j = slot(self.entries@, dir@.child(name));
                assert(self.entries[j].path@ == dir@.child(name));
                let x = choose|x: int| 0 <= x < listing.len() && #[trigger] listing[x].name@ == name;
                assert(view[x].name == name);
            }
        }
        Some(listing)
    }
}

/// A copy of `bytes`.
pub fn copy_of(bytes: &Vec<u8>) -> (copy: Vec<u8>)
    ensures
        copy@ == bytes@,
{
    let mut copy: Vec<u8> = Vec::new();
    let mut i: usize = 0;
    while i < bytes.len()
        invariant
            i <= bytes.len(),
            copy@ == bytes@.take(i as int),
        decreases bytes.len() - i,
    {
        copy.push(bytes[i]);
        proof {
            assert(copy@ =~= bytes@.take(i + 1));
        }
        i = i + 1;
    }
    proof {
        assert(bytes@.take(i as int) =~= bytes@);
    }
    copy
}

/// Nothing lies below a file.
pub proof fn lemma_file_is_alone(t: TreeView, from: PathView, p: PathView)
    requires
        rooted(t),
        is_file(t, from),
        p.is_within(from),
        t.contains_key(p),
    ensures
        p == from,
    decreases p.names.len(),
{
    if p != from {
        lemma_parent_within(p, from);
        assert(is_directory(t, p.parent()));
        lemma_file_is_alone(t, from, p.parent());
    }
}

/// All that lies above an entry of a tree is a directory of the tree.
pub proof fn lemma_above_is_directory(t: TreeView, p: PathView, q: PathView)
    requires
        rooted(t),
        t.contains_key(p),
        p.is_within(q),
        p != q,
    ensures
        is_directory(t, q),
    decreases p.names.len(),
{
    lemma_parent_within(p, q);
    assert(is_directory(t, p.parent()));
    if p.parent() != q {
        lemma_above_is_directory(t, p.parent(), q);
    }
}

} // verus!
