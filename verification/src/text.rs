//! Reading the characters of an argument: where it starts, where it ends,
//! and which names stand between its separators.

use vstd::prelude::*;

verus! {

/// The character that separates the names of a path.
pub open spec fn separator() -> char {
    '/'
}

/// The name that stands for "this directory".
pub open spec fn here() -> Seq<char> {
    seq!['.']
}

/// Whether `s` begins with the character `c`.
pub open spec fn begins_with(s: Seq<char>, c: char) -> bool {
    s.len() > 0 && s[0] == c
}

/// Whether `s` ends with the character `c`.
pub open spec fn finishes_with(s: Seq<char>, c: char) -> bool {
    s.len() > 0 && s[s.len() - 1] == c
}

/// Whether `s` can be the name of one entry of a directory: it is not empty,
/// holds no separator, and is not the name of the directory itself.
pub open spec fn is_name(s: Seq<char>) -> bool {
    &&& s.len() > 0
    &&& !s.contains(separator())
    &&& s != here()
}

/// Whether every element of `names` is a name.
pub open spec fn all_names(names: Seq<Seq<char>>) -> bool {
    forall|i: int| 0 <= i < names.len() ==> is_name(#[trigger] names[i])
}

/// The index of the first `c` in `s`, or the length of `s` where it holds
/// none.
pub open spec fn first_of(s: Seq<char>, c: char) -> int
    decreases s.len(),
{
    if s.len() == 0 || s[0] == c {
        0
    } else {
        1 + first_of(s.skip(1), c)
    }
}

/// The names in `s`, in order: the stretches between separators, without the
/// empty ones and without those that only say "this directory".
pub open spec fn names_of(s: Seq<char>) -> Seq<Seq<char>>
    decreases s.len(),
{
    if s.len() == 0 {
        Seq::empty()
    } else {
        let k = first_of(s, separator());
        let head = s.take(k);
        let rest = if 0 <= k < s.len() {
            names_of(s.skip(k + 1))
        } else {
            Seq::empty()
        };
        if head.len() > 0 && head != here() {
            seq![head] + rest
        } else {
            rest
        }
    }
}

/// The views of the strings in `v`, in order.
pub open spec fn texts(v: Seq<String>) -> Seq<Seq<char>> {
    Seq::new(v.len(), |i: int| v[i]@)
}

/// `first_of` finds `k` when no `c` stands before `k` and one stands at
/// `k`, or `s` ends there.
pub proof fn lemma_first_of(s: Seq<char>, c: char, k: int)
    requires
        0 <= k <= s.len(),
        forall|j: int| 0 <= j < k ==> s[j] != c,
        k == s.len() || s[k] == c,
    ensures
        first_of(s, c) == k,
    decreases k,
{
    if k > 0 {
        let t = s.skip(1);
        assert forall|j: int| 0 <= j < k - 1 implies t[j] != c by {
            assert(t[j] == s[j + 1]);
        }
        lemma_first_of(t, c, k - 1);
    }
}

/// The first `c` lies within `s`, and nothing before it is `c`.
pub proof fn lemma_first_of_bounds(s: Seq<char>, c: char)
    ensures
        0 <= first_of(s, c) <= s.len(),
        forall|j: int| 0 <= j < first_of(s, c) ==> s[j] != c,
        first_of(s, c) < s.len() ==> s[first_of(s, c)] == c,
    decreases s.len(),
{
    if s.len() == 0 || s[0] == c {
    } else {
        let t = s.skip(1);
        lemma_first_of_bounds(t, c);
        assert forall|j: int| 0 <= j < first_of(s, c) implies s[j] != c by {
            if j > 0 {
                assert(s[j] == t[j - 1]);
            }
        }
        if first_of(s, c) < s.len() {
            assert(s[first_of(s, c)] == t[first_of(t, c)]);
        }
    }
}

/// Everything that `names_of` gives is a name.
pub proof fn lemma_names_of_are_names(s: Seq<char>)
    ensures
        all_names(names_of(s)),
    decreases s.len(),
{
    if s.len() > 0 {
        let k = first_of(s, separator());
        lemma_first_of_bounds(s, separator());
        let head = s.take(k);
        let rest = if 0 <= k < s.len() {
            names_of(s.skip(k + 1))
        } else {
            Seq::empty()
        };
        if k < s.len() {
            lemma_names_of_are_names(s.skip(k + 1));
        }
        if head.len() > 0 && head != here() {
            assert(!head.contains(separator())) by {
                if head.contains(separator()) {
                    let j = choose|j: int| 0 <= j < head.len() && head[j] == separator();
                    assert(s[j] == head[j]);
                }
            }
            assert(is_name(head));
            let all = seq![head] + rest;
            assert forall|i: int| 0 <= i < all.len() implies is_name(#[trigger] all[i]) by {
                if i > 0 {
                    assert(all[i] == rest[i - 1]);
                }
            }
        }
    }
}

/// A stretch without a separator is one name, or none where it is empty or
/// says "this directory".
pub open spec fn kept(stretch: Seq<char>) -> Seq<Seq<char>> {
    if stretch.len() > 0 && stretch != here() {
        seq![stretch]
    } else {
        Seq::empty()
    }
}

/// The names of a text with a separator in it are the names before the
/// separator and the names behind it.
pub proof fn lemma_names_of_parts(a: Seq<char>, b: Seq<char>)
    ensures
        names_of(a + seq![separator()] + b) == names_of(a) + names_of(b),
    decreases a.len(),
{
    let s = a + seq![separator()] + b;
    let k = first_of(a, separator());
    lemma_first_of_bounds(a, separator());
    assert forall|j: int| 0 <= j < k implies s[j] != separator() by {
        assert(s[j] == a[j]);
    }
    if k == a.len() {
        assert(s[k] == separator());
        lemma_first_of(s, separator(), k);
        assert(s.take(k) =~= a);
        assert(s.skip(k + 1) =~= b);
        if a.len() > 0 {
            assert(a.take(k) =~= a);
            assert(names_of(a) =~= kept(a));
        }
        assert(names_of(s) =~= kept(a) + names_of(b));
        assert(names_of(a) =~= kept(a));
    } else {
        assert(s[k] == a[k]);
        lemma_first_of(s, separator(), k);
        let behind = a.skip(k + 1);
        assert(s.take(k) =~= a.take(k));
        assert(s.skip(k + 1) =~= behind + seq![separator()] + b);
        lemma_names_of_parts(behind, b);
        assert(names_of(s) =~= kept(a.take(k)) + (names_of(behind) + names_of(b)));
        assert(names_of(a) =~= kept(a.take(k)) + names_of(behind));
        assert(names_of(s) =~= names_of(a) + names_of(b));
    }
}

/// A name by itself is read as that name.
pub proof fn lemma_names_of_name(name: Seq<char>)
    requires
        is_name(name),
    ensures
        names_of(name) == seq![name],
{
    assert forall|j: int| 0 <= j < name.len() implies name[j] != separator() by {
        if name[j] == separator() {
            assert(name.contains(separator()));
        }
    }
    lemma_first_of(name, separator(), name.len() as int);
    assert(name.take(name.len() as int) =~= name);
    assert(names_of(name) =~= seq![name]);
}

/// Whether the characters of `chars` from `from` up to `to` spell `word`.
pub fn spells(chars: &Vec<char>, from: usize, to: usize, word: &str) -> (same: bool)
    ensures
        same == (from <= to <= chars.len() && chars@.subrange(from as int, to as int) == word@),
{
    if from > to || to > chars.len() {
        return false;
    }
    let letters = chars_of(word);
    if letters.len() != to - from {
        proof {
            assert(chars@.subrange(from as int, to as int).len() != word@.len());
        }
        return false;
    }
    let mut i: usize = 0;
    while i < letters.len()
        invariant
            i <= letters.len(),
            letters.len() == to - from,
            letters@ == word@,
            from <= to <= chars.len(),
            forall|j: int| 0 <= j < i ==> chars[from + j] == letters[j],
        decreases letters.len() - i,
    {
        if chars[from + i] != letters[i] {
            proof {
                assert(chars@.subrange(from as int, to as int)[i as int] != letters@[i as int]);
            }
            return false;
        }
        i = i + 1;
    }
    proof {
        assert(chars@.subrange(from as int, to as int) =~= letters@);
    }
    true
}

/// The characters of `s`, in order.
pub fn chars_of(s: &str) -> (chars: Vec<char>)
    ensures
        chars@ == s@,
{
    let mut chars: Vec<char> = Vec::new();
    for c in it: s.chars()
        invariant
            chars@ == it.seq().take(it.index()),
            it.seq() == s@,
    {
        chars.push(c);
    }
    chars
}

/// Whether `s` begins with the character `c`.
pub fn starts_with_char(s: &str, c: char) -> (found: bool)
    ensures
        found == begins_with(s@, c),
{
    let mut it = s.chars();
    match it.next() {
        Some(first) => first == c,
        None => false,
    }
}

/// Whether `s` ends with the character `c`.
pub fn ends_with_char(s: &str, c: char) -> (found: bool)
    ensures
        found == finishes_with(s@, c),
{
    let chars = chars_of(s);
    let n: usize = chars.len();
    n > 0 && chars[n - 1] == c
}

/// Splits `s` at its separators and keeps the names: see [`names_of`].
pub fn split_names(s: &str) -> (names: Vec<String>)
    ensures
        texts(names@) == names_of(s@),
        all_names(texts(names@)),
{
    let chars = chars_of(s);
    let n: usize = chars.len();
    let mut names: Vec<String> = Vec::new();
    let mut start: usize = 0;
    let mut i: usize = 0;
    proof {
        assert(s@.skip(0) =~= s@);
        assert(texts(names@) =~= Seq::<Seq<char>>::empty());
    }
    while i < n
        invariant
            n == s@.len(),
            chars@ == s@,
            start <= i <= n,
            forall|j: int| start <= j < i ==> s@[j] != separator(),
            names_of(s@) == texts(names@) + names_of(s@.skip(start as int)),
        decreases n - i,
    {
        if chars[i] == '/' {
            proof {
                let tail = s@.skip(start as int);
                assert forall|j: int| 0 <= j < i - start implies tail[j] != separator() by {
                    assert(tail[j] == s@[start + j]);
                }
                lemma_first_of(tail, separator(), i - start);
                assert(tail.take(i - start) =~= s@.subrange(start as int, i as int));
                assert(tail.skip(i - start + 1) =~= s@.skip(i + 1));
            }
            let ghost before = names@;
            if i > start && !(i - start == 1 && chars[start] == '.') {
                let piece = s.substring_char(start, i);
                names.push(String::from_str(piece));
                proof {
                    assert(piece@ != here());
                    assert(texts(names@) =~= texts(before).push(piece@));
                    assert(texts(before) + (seq![piece@] + names_of(s@.skip(i + 1)))
                        =~= texts(names@) + names_of(s@.skip(i + 1)));
                }
            } else {
                proof {
                    if i > start {
                        assert(s@.subrange(start as int, i as int) =~= here());
                    }
                }
            }
            start = i + 1;
        }
        i = i + 1;
    }
    if start < n {
        proof {
            let tail = s@.skip(start as int);
            assert forall|j: int| 0 <= j < n - start implies tail[j] != separator() by {
                assert(tail[j] == s@[start + j]);
            }
            lemma_first_of(tail, separator(), n - start);
            assert(tail.take(n - start) =~= s@.subrange(start as int, n as int));
        }
        let ghost before = names@;
        if !(n - start == 1 && chars[start] == '.') {
            let piece = s.substring_char(start, n);
            names.push(String::from_str(piece));
            proof {
                assert(piece@ != here());
                assert(texts(names@) =~= texts(before).push(piece@));
                assert(texts(before) + (seq![piece@] + Seq::<Seq<char>>::empty()) =~= texts(
                    names@,
                ));
            }
        } else {
            proof {
                assert(s@.subrange(start as int, n as int) =~= here());
                assert(texts(before) + Seq::<Seq<char>>::empty() =~= texts(before));
            }
        }
    } else {
        proof {
            assert(s@.skip(start as int).len() == 0);
            assert(texts(names@) + Seq::<Seq<char>>::empty() =~= texts(names@));
        }
    }
    proof {
        lemma_names_of_are_names(s@);
    }
    names
}

} // verus!
