//! Paths as the tool sees them: a list of names, counted from the root of
//! the file tree or from the working directory, and the reading of an
//! argument into such a path.

use vstd::prelude::*;
use crate::error::Error;
use crate::text::{
    all_names, begins_with, ends_with_char, finishes_with, first_of, here, is_name,
    lemma_first_of, lemma_names_of_name, lemma_names_of_parts, names_of, separator, split_names,
    starts_with_char, texts,
};

verus! {

/// A path: the names that lead to an entry, from the root where `absolute`
/// is set and from the working directory where it is not.
#[derive(Debug, PartialEq, Eq)]
pub struct Path {
    pub absolute: bool,
    pub names: Vec<String>,
}

/// What a [`Path`] stands for.
#[verifier::ext_equal]
pub struct PathView {
    pub absolute: bool,
    pub names: Seq<Seq<char>>,
}

impl PathView {
    /// Every element is a name.
    pub open spec fn wf(self) -> bool {
        all_names(self.names)
    }

    /// The entry `name` of this directory.
    pub open spec fn child(self, name: Seq<char>) -> PathView {
        PathView { absolute: self.absolute, names: self.names.push(name) }
    }

    /// The path that `more` leads to from here.
    pub open spec fn extend(self, more: Seq<Seq<char>>) -> PathView {
        PathView { absolute: self.absolute, names: self.names + more }
    }

    /// The directory that holds this entry.
    pub open spec fn parent(self) -> PathView
        recommends
            self.names.len() > 0,
    {
        PathView { absolute: self.absolute, names: self.names.drop_last() }
    }

    /// The first `n` names of this path.
    pub open spec fn ancestor(self, n: int) -> PathView
        recommends
            0 <= n <= self.names.len(),
    {
        PathView { absolute: self.absolute, names: self.names.take(n) }
    }

    /// This path is `base` or lies below it.
    pub open spec fn is_within(self, base: PathView) -> bool {
        self.absolute == base.absolute && base.names.is_prefix_of(self.names)
    }

    /// The names that lead from `base` to this path, which lies within it.
    pub open spec fn below(self, base: PathView) -> Seq<Seq<char>>
        recommends
            self.is_within(base),
    {
        self.names.skip(base.names.len() as int)
    }

    /// The place in `to` that this path has in `from`.
    pub open spec fn moved(self, from: PathView, to: PathView) -> PathView
        recommends
            self.is_within(from),
    {
        to.extend(self.below(from))
    }
}

/// The root of the file tree.
pub open spec fn root_view() -> PathView {
    PathView { absolute: true, names: Seq::empty() }
}

/// The working directory, as a relative path.
pub open spec fn working_view() -> PathView {
    PathView { absolute: false, names: Seq::empty() }
}

/// The path `p` as seen from the top of the tree: an absolute path is
/// itself, any other leads on from the working directory `cwd`.
pub open spec fn anchored(p: PathView, cwd: PathView) -> PathView {
    if p.absolute {
        p
    } else {
        cwd.extend(p.names)
    }
}

impl View for Path {
    type V = PathView;

    open spec fn view(&self) -> PathView {
        PathView { absolute: self.absolute, names: texts(self.names@) }
    }
}

impl Clone for Path {
    fn clone(&self) -> (copy: Path)
        ensures
            copy@ == self@,
    {
        let names = copy_names(&self.names, 0, self.names.len());
        proof {
            assert(texts(self.names@).subrange(0, self.names.len() as int) =~= texts(self.names@));
        }
        Path { absolute: self.absolute, names }
    }
}

/// A copy of the names of `v` from index `from` up to index `to`. Both
/// must lie within `v`, in this order.
pub(crate) fn copy_names(v: &Vec<String>, from: usize, to: usize) -> (names: Vec<String>)
    requires
        from <= to <= v.len(),
    ensures
        texts(names@) == texts(v@).subrange(from as int, to as int),
{
    let mut names: Vec<String> = Vec::new();
    let mut i: usize = from;
    while i < to
        invariant
            from <= i <= to <= v.len(),
            names.len() == i - from,
            forall|j: int| 0 <= j < names.len() ==> names[j]@ == v[from + j]@,
        decreases to - i,
    {
        names.push(v[i].clone());
        i = i + 1;
    }
    proof {
        assert(texts(names@) =~= texts(v@).subrange(from as int, to as int));
    }
    names
}

/// What an argument names: a path, and whether the argument marked it as a
/// directory.
#[derive(Debug, PartialEq, Eq)]
pub struct Target {
    pub path: Path,
    pub directory: bool,
}

/// What a [`Target`] stands for.
pub struct TargetView {
    pub path: PathView,
    pub directory: bool,
}

impl View for Target {
    type V = TargetView;

    open spec fn view(&self) -> TargetView {
        TargetView { path: self.path@, directory: self.directory }
    }
}

/// The path that the text `raw` spells out by itself: absolute where it
/// begins with a separator, made of the names in it.
pub open spec fn literal_path(raw: Seq<char>) -> PathView {
    PathView { absolute: begins_with(raw, separator()), names: names_of(raw) }
}

/// What the argument `raw` names for a process whose working directory is
/// `cwd`.
///
/// An argument without any name in it names nothing. One that begins with
/// `.` is anchored at the working directory; any other is taken as it is
/// written. A separator at the end marks a directory.
pub open spec fn resolved(raw: Seq<char>, cwd: PathView) -> Result<TargetView, Error> {
    if names_of(raw).len() == 0 {
        Err(Error::InvalidPath)
    } else {
        Ok(
            TargetView {
                path: if begins_with(raw, '.') {
                    cwd.extend(names_of(raw))
                } else {
                    literal_path(raw)
                },
                directory: finishes_with(raw, separator()),
            },
        )
    }
}

/// The names with a separator between each two of them.
pub open spec fn joined(names: Seq<Seq<char>>) -> Seq<char>
    decreases names.len(),
{
    if names.len() == 0 {
        Seq::empty()
    } else if names.len() == 1 {
        names[0]
    } else {
        joined(names.drop_last()) + seq![separator()] + names.last()
    }
}

/// The text that spells out `path`: a separator in front where it is
/// absolute, then its names with separators between them; the working
/// directory itself is written `.`.
pub open spec fn rendered(path: PathView) -> Seq<char> {
    if path.absolute {
        seq![separator()] + joined(path.names)
    } else if path.names.len() == 0 {
        here()
    } else {
        joined(path.names)
    }
}

/// Names joined by separators are read as these names.
pub proof fn lemma_joined_is_read(names: Seq<Seq<char>>)
    requires
        all_names(names),
    ensures
        names_of(joined(names)) == names,
        names.len() > 0 ==> joined(names).len() > 0 && joined(names)[0] != separator(),
    decreases names.len(),
{
    if names.len() == 0 {
        assert(names =~= Seq::<Seq<char>>::empty());
    } else {
        let first = names[0];
        assert(is_name(first));
        assert(first[0] != separator()) by {
            if first[0] == separator() {
                assert(first.contains(separator()));
            }
        }
        if names.len() == 1 {
            lemma_names_of_name(first);
            assert(names =~= seq![first]);
        } else {
            let front = names.drop_last();
            assert forall|i: int| 0 <= i < front.len() implies is_name(#[trigger] front[i]) by {
                assert(front[i] == names[i]);
            }
            lemma_joined_is_read(front);
            assert(is_name(names.last()));
            lemma_names_of_name(names.last());
            lemma_names_of_parts(joined(front), names.last());
            assert(front + seq![names.last()] =~= names);
            assert(joined(names)[0] == joined(front)[0]);
        }
    }
}

/// A path that is spelled out and read again is the path it was.
pub proof fn lemma_rendered_is_read(path: PathView)
    requires
        path.wf(),
    ensures
        literal_path(rendered(path)) == path,
{
    let text = rendered(path);
    lemma_joined_is_read(path.names);
    if path.absolute {
        assert(text =~= Seq::<char>::empty() + seq![separator()] + joined(path.names));
        lemma_names_of_parts(Seq::empty(), joined(path.names));
        assert(names_of(text) =~= path.names);
        assert(text[0] == separator());
    } else if path.names.len() == 0 {
        assert(here().take(1) =~= here());
        assert(here()[0] != separator());
        assert(first_of(here(), separator()) == 1) by {
            lemma_first_of(here(), separator(), 1);
        }
        assert(names_of(here()) =~= Seq::<Seq<char>>::empty());
        assert(path.names =~= Seq::<Seq<char>>::empty());
    }
}

impl Path {
    /// The root of the file tree.
    pub fn root() -> (path: Path)
        ensures
            path@ == root_view(),
            path@.wf(),
    {
        let path = Path { absolute: true, names: Vec::new() };
        proof {
            assert(path@.names =~= Seq::empty());
        }
        path
    }

    /// The working directory, as a relative path.
    pub fn working_directory() -> (path: Path)
        ensures
            path@ == working_view(),
            path@.wf(),
    {
        let path = Path { absolute: false, names: Vec::new() };
        proof {
            assert(path@.names =~= Seq::empty());
        }
        path
    }

    /// The path that `raw` spells out by itself.
    pub fn from_text(raw: &str) -> (path: Path)
        ensures
            path@ == literal_path(raw@),
            path@.wf(),
    {
        Path { absolute: starts_with_char(raw, '/'), names: split_names(raw) }
    }

    /// How many names the path has.
    pub fn depth(&self) -> (n: usize)
        ensures
            n == self@.names.len(),
    {
        self.names.len()
    }

    /// The path that the names in `more` lead to from here.
    pub fn extend(&self, more: &Vec<String>) -> (path: Path)
        ensures
            path@ == self@.extend(texts(more@)),
    {
        let mut path = self.clone();
        let ghost base = path.names@;
        let mut i: usize = 0;
        while i < more.len()
            invariant
                i <= more.len(),
                path.absolute == self.absolute,
                path.names.len() == base.len() + i,
                forall|j: int| 0 <= j < base.len() ==> path.names[j] == base[j],
                forall|j: int| 0 <= j < i ==> path.names[base.len() + j]@ == more[j]@,
            decreases more.len() - i,
        {
            path.names.push(more[i].clone());
            i = i + 1;
        }
        proof {
            assert(texts(base) == texts(self.names@));
            assert forall|j: int| 0 <= j < base.len() implies texts(path.names@)[j] == texts(
                self.names@,
            )[j] by {
                assert(texts(base)[j] == base[j]@);
            }
            assert(texts(path.names@) =~= texts(self.names@) + texts(more@));
        }
        path
    }

    /// The entry `name` of this directory.
    pub fn child(&self, name: &str) -> (path: Path)
        ensures
            path@ == self@.child(name@),
    {
        let mut path = self.clone();
        path.names.push(String::from_str(name));
        proof {
            assert(texts(path.names@) =~= texts(self.names@).push(name@));
        }
        path
    }

    /// The first `n` names of this path, or all of them where it has
    /// fewer.
    pub fn ancestor(&self, n: usize) -> (path: Path)
        ensures
            path@ == self@.ancestor(
                if n <= self@.names.len() {
                    n as int
                } else {
                    self@.names.len() as int
                },
            ),
    {
        let count: usize = if n <= self.names.len() {
            n
        } else {
            self.names.len()
        };
        let names = copy_names(&self.names, 0, count);
        Path { absolute: self.absolute, names }
    }

    /// The directory that holds this entry; a path without names has none.
    pub fn parent(&self) -> (dir: Option<Path>)
        ensures
            self@.names.len() == 0 ==> dir.is_none(),
            self@.names.len() > 0 ==> dir.is_some() && dir.unwrap()@ == self@.parent(),
    {
        if self.names.len() == 0 {
            None
        } else {
            let dir = self.ancestor(self.names.len() - 1);
            proof {
                assert(self@.names.take(self@.names.len() - 1) =~= self@.names.drop_last());
            }
            Some(dir)
        }
    }

    /// Whether the two paths are the same.
    pub fn same(&self, other: &Path) -> (equal: bool)
        ensures
            equal == (self@ == other@),
    {
        if self.absolute != other.absolute || self.names.len() != other.names.len() {
            proof {
                assert(self@.names.len() == self.names.len());
                assert(other@.names.len() == other.names.len());
            }
            return false;
        }
        let mut i: usize = 0;
        while i < self.names.len()
            invariant
                i <= self.names.len(),
                self.names.len() == other.names.len(),
                self.absolute == other.absolute,
                forall|j: int| 0 <= j < i ==> self.names[j]@ == other.names[j]@,
            decreases self.names.len() - i,
        {
            if self.names[i] != other.names[i] {
                proof {
                    assert(self@.names[i as int] != other@.names[i as int]);
                }
                return false;
            }
            i = i + 1;
        }
        proof {
            assert(self@.names =~= other@.names);
        }
        true
    }

    /// Whether this path is `base` or lies below it.
    pub fn is_within(&self, base: &Path) -> (inside: bool)
        ensures
            inside == self@.is_within(base@),
    {
        if self.absolute != base.absolute || self.names.len() < base.names.len() {
            return false;
        }
        let mut i: usize = 0;
        while i < base.names.len()
            invariant
                i <= base.names.len() <= self.names.len(),
                self.absolute == base.absolute,
                forall|j: int| 0 <= j < i ==> self.names[j]@ == base.names[j]@,
            decreases base.names.len() - i,
        {
            if self.names[i] != base.names[i] {
                proof {
                    assert(self@.names[i as int] != base@.names[i as int]);
                }
                return false;
            }
            i = i + 1;
        }
        proof {
            assert(base@.names =~= self@.names.subrange(0, base@.names.len() as int));
        }
        true
    }

    /// The names that lead from `base` to this path, which lies within it:
    /// the names of this path behind as many as `base` has. A path with
    /// fewer names than `base` has none behind them.
    pub fn below(&self, base: &Path) -> (names: Vec<String>)
        ensures
            texts(names@) == (if base@.names.len() <= self@.names.len() {
                self@.below(base@)
            } else {
                Seq::empty()
            }),
    {
        if base.names.len() > self.names.len() {
            let names: Vec<String> = Vec::new();
            proof {
                assert(texts(names@) =~= Seq::<Seq<char>>::empty());
            }
            return names;
        }
        let names = copy_names(&self.names, base.names.len(), self.names.len());
        proof {
            assert(texts(self.names@).subrange(base.names.len() as int, self.names.len() as int)
                =~= self@.below(base@));
        }
        names
    }

    /// The path as seen from the top of the tree: see [`anchored`].
    pub fn anchor(&self, cwd: &Path) -> (path: Path)
        ensures
            path@ == anchored(self@, cwd@),
    {
        if self.absolute {
            self.clone()
        } else {
            cwd.extend(&self.names)
        }
    }

    /// The text that spells the path out.
    pub fn render(&self) -> (text: String)
        ensures
            text@ == rendered(self@),
    {
        let mut text = String::new();
        if self.absolute {
            text.append("/");
            proof {
                reveal_strlit("/");
                assert(text@ =~= seq![separator()]);
            }
        } else if self.names.len() == 0 {
            text.append(".");
            proof {
                reveal_strlit(".");
                assert(text@ =~= here());
            }
            return text;
        }
        let ghost front = text@;
        let mut i: usize = 0;
        while i < self.names.len()
            invariant
                i <= self.names.len(),
                text@ == front + joined(texts(self.names@).take(i as int)),
            decreases self.names.len() - i,
        {
            if i > 0 {
                text.append("/");
            }
            text.append(self.names[i].as_str());
            proof {
                reveal_strlit("/");
                let all = texts(self.names@);
                assert(all.take(i + 1).drop_last() =~= all.take(i as int));
                assert(all.take(i + 1).last() == self.names[i as int]@);
                if i > 0 {
                    assert(text@ =~= front + (joined(all.take(i as int)) + seq![separator()]
                        + self.names[i as int]@));
                } else {
                    assert(joined(all.take(0)) =~= Seq::<char>::empty());
                    assert(text@ =~= front + self.names[i as int]@);
                }
            }
            i = i + 1;
        }
        proof {
            assert(texts(self.names@).take(i as int) =~= texts(self.names@));
            if !self.absolute {
                assert(front + joined(self@.names) =~= joined(self@.names));
            }
        }
        text
    }
}

/// Reads the argument `raw` for a process whose working directory is `cwd`.
///
/// An argument that holds no name is refused. One that begins with `.` is
/// anchored at `cwd`; any other is taken as written. A separator at its end
/// marks the target as a directory.
pub fn resolve(raw: &str, cwd: &Path) -> (outcome: Result<Target, Error>)
    ensures
        outcome.is_ok() == resolved(raw@, cwd@).is_ok(),
        outcome matches Ok(target) ==> resolved(raw@, cwd@) == Ok::<TargetView, Error>(target@),
        outcome matches Err(e) ==> resolved(raw@, cwd@) == Err::<TargetView, Error>(e),
        outcome matches Ok(target) ==> (cwd@.wf() ==> target@.path.wf()),
{
    let names = split_names(raw);
    if names.len() == 0 {
        return Err(Error::InvalidPath);
    }
    let directory = ends_with_char(raw, '/');
    let path = if starts_with_char(raw, '.') {
        cwd.extend(&names)
    } else {
        Path { absolute: starts_with_char(raw, '/'), names }
    };
    Ok(Target { path, directory })
}

/// The names that lead to the directory `name` of the directory `dir`.
pub open spec fn below_entry(dir: Seq<Seq<char>>, name: Seq<char>) -> Seq<Seq<char>> {
    dir.push(name)
}

/// Moving a path from one top to another and back gives the path.
pub proof fn lemma_moved_back(p: PathView, from: PathView, to: PathView)
    requires
        p.is_within(from),
    ensures
        p.moved(from, to).is_within(to),
        p.moved(from, to).moved(to, from) == p,
        p.moved(from, to).names.len() == to.names.len() + p.names.len() - from.names.len(),
        p == from <==> p.moved(from, to) == to,
{
    let q = p.moved(from, to);
    assert(q.names.subrange(0, to.names.len() as int) =~= to.names);
    assert(q.below(to) =~= p.below(from));
    assert(from.names + p.below(from) =~= p.names);
    if q == to {
        assert(p.names.len() == from.names.len());
        assert(p.names =~= from.names);
    }
    if p == from {
        assert(p.below(from) =~= Seq::<Seq<char>>::empty());
        assert(q.names =~= to.names);
    }
}

/// The directory that holds a moved entry is the moved directory that held
/// the entry.
pub proof fn lemma_moved_parent(p: PathView, from: PathView, to: PathView)
    requires
        p.is_within(from),
        p != from,
    ensures
        p.names.len() > from.names.len(),
        p.parent().is_within(from),
        p.moved(from, to).parent() == p.parent().moved(from, to),
        p.parent().child(p.names.last()) == p,
{
    if p.names.len() == from.names.len() {
        assert(p.names =~= from.names);
    }
    assert(from.names.is_prefix_of(p.parent().names));
    assert(p.moved(from, to).parent().names =~= p.parent().moved(from, to).names);
    assert(p.parent().child(p.names.last()).names =~= p.names);
}

/// Two paths above one path lie one above the other.
pub proof fn lemma_comparable(c: PathView, a: PathView, b: PathView)
    requires
        c.is_within(a),
        c.is_within(b),
    ensures
        a.is_within(b) || b.is_within(a),
{
    if a.names.len() <= b.names.len() {
        assert(a.names =~= b.names.subrange(0, a.names.len() as int)) by {
            assert forall|i: int| 0 <= i < a.names.len() implies a.names[i] == b.names[i] by {
                assert(a.names[i] == c.names[i]);
                assert(b.names[i] == c.names[i]);
            }
        }
        assert(b.is_within(a));
    } else {
        assert(b.names =~= a.names.subrange(0, b.names.len() as int)) by {
            assert forall|i: int| 0 <= i < b.names.len() implies a.names[i] == b.names[i] by {
                assert(a.names[i] == c.names[i]);
                assert(b.names[i] == c.names[i]);
            }
        }
        assert(a.is_within(b));
    }
}

/// What lies within a path lies within all that the path lies within.
pub proof fn lemma_within_chain(a: PathView, b: PathView, c: PathView)
    requires
        a.is_within(b),
        b.is_within(c),
    ensures
        a.is_within(c),
{
    assert(c.names.is_prefix_of(b.names));
    assert(b.names.is_prefix_of(a.names));
    assert(c.names =~= a.names.subrange(0, c.names.len() as int)) by {
        assert forall|i: int| 0 <= i < c.names.len() implies c.names[i] == a.names[i] by {
            assert(c.names[i] == b.names[i]);
            assert(b.names[i] == a.names[i]);
        }
    }
}

/// Two paths that lie within each other are one path.
pub proof fn lemma_within_both(a: PathView, b: PathView)
    requires
        a.is_within(b),
        b.is_within(a),
    ensures
        a == b,
{
    assert(a.names =~= b.names);
}

/// The directory that holds an entry below `e` lies within `e`.
pub proof fn lemma_parent_within(d: PathView, e: PathView)
    requires
        d.is_within(e),
        d != e,
    ensures
        d.names.len() > 0,
        d.parent().is_within(e),
{
    if d.names.len() == e.names.len() {
        assert(d.names =~= e.names);
    }
    assert(e.names =~= d.parent().names.subrange(0, e.names.len() as int));
}

/// Moving keeps what lies within what.
pub proof fn lemma_moved_within(p: PathView, q: PathView, from: PathView, to: PathView)
    requires
        p.is_within(q),
        q.is_within(from),
    ensures
        p.is_within(from),
        p.moved(from, to).is_within(q.moved(from, to)),
{
    lemma_within_chain(p, q, from);
    let pm = p.moved(from, to);
    let qm = q.moved(from, to);
    let fl = from.names.len() as int;
    let tl = to.names.len() as int;
    assert(qm.names.len() == tl + q.names.len() - fl);
    assert(pm.names.len() == tl + p.names.len() - fl);
    assert forall|i: int| 0 <= i < qm.names.len() implies qm.names[i] == pm.names[i] by {
        if i >= tl {
            assert(qm.names[i] == q.names[i - tl + fl]);
            assert(pm.names[i] == p.names[i - tl + fl]);
            assert(q.names[i - tl + fl] == p.names[i - tl + fl]);
        } else {
            assert(qm.names[i] == to.names[i]);
            assert(pm.names[i] == to.names[i]);
        }
    }
    assert(qm.names =~= pm.names.subrange(0, qm.names.len() as int));
}

/// What the names that lead on from a path give.
pub proof fn lemma_extend(from: PathView, to: PathView, names: Seq<Seq<char>>)
    ensures
        from.extend(names).is_within(from),
        from.extend(names).below(from) == names,
        from.extend(names).moved(from, to) == to.extend(names),
        names.len() == 0 ==> from.extend(names) == from,
        names.len() > 0 ==> from.extend(names) != from && from.extend(names).parent()
            == from.extend(names.drop_last()),
{
    let p = from.extend(names);
    assert(from.names =~= p.names.subrange(0, from.names.len() as int));
    assert(p.below(from) =~= names);
    if names.len() == 0 {
        assert(p.names =~= from.names);
    } else {
        assert(p.parent().names =~= from.extend(names.drop_last()).names);
    }
}

/// The entry `name` of the directory that `names` lead to.
pub proof fn lemma_extend_child(from: PathView, names: Seq<Seq<char>>, name: Seq<char>)
    ensures
        from.extend(names).child(name) == from.extend(below_entry(names, name)),
        from.extend(names).child(name).parent() == from.extend(names),
        from.extend(names).child(name).names.last() == name,
        from.extend(names).child(name).is_within(from.extend(names)),
        from.extend(names).child(name).is_within(from),
        from.extend(names).child(name) != from,
        below_entry(names, name).drop_last() == names,
{
    let p = from.extend(names);
    assert(p.child(name).names =~= from.extend(below_entry(names, name)).names);
    assert(p.child(name).parent().names =~= p.names);
    assert(p.names =~= p.child(name).names.subrange(0, p.names.len() as int));
    assert(from.names =~= p.child(name).names.subrange(0, from.names.len() as int));
    assert(below_entry(names, name).drop_last() =~= names);
}

/// Different names lead from a path to different paths.
pub proof fn lemma_extend_differs(from: PathView, a: Seq<Seq<char>>, b: Seq<Seq<char>>)
    requires
        a != b,
    ensures
        from.extend(a) != from.extend(b),
{
    lemma_extend(from, from, a);
    lemma_extend(from, from, b);
}

} // verus!
