//! The journal as text, as it is kept between runs: one line for each
//! entry, oldest first. A line holds the time, the kind and the number of
//! arguments, then each argument behind its length:
//! `1700000000 Trash 2 8:draft.md 5:notes`.

use vstd::prelude::*;
use crate::error::Error;
use crate::journal::{entries_view, EntryView, JournalEntry};
use crate::number::{
    digits_of, lemma_digits, lemma_number_of, lemma_number_read, number_of,
    read_number, write_number,
};
use crate::operation::{Operation, OperationKind, OperationView};
use crate::text::{chars_of, first_of, lemma_first_of, lemma_first_of_bounds, spells, texts};

verus! {

/// The word that names a kind.
pub open spec fn kind_text(kind: OperationKind) -> Seq<char> {
    match kind {
        OperationKind::Create => "Create"@,
        OperationKind::Delete => "Delete"@,
        OperationKind::CreateIn => "CreateIn"@,
        OperationKind::DeleteIn => "DeleteIn"@,
        OperationKind::Trash => "Trash"@,
        OperationKind::Move => "Move"@,
        OperationKind::Rename => "Rename"@,
    }
}

/// The kind that the word names, if it names one.
pub open spec fn kind_named(word: Seq<char>) -> Option<OperationKind> {
    if word == "Create"@ {
        Some(OperationKind::Create)
    } else if word == "Delete"@ {
        Some(OperationKind::Delete)
    } else if word == "CreateIn"@ {
        Some(OperationKind::CreateIn)
    } else if word == "DeleteIn"@ {
        Some(OperationKind::DeleteIn)
    } else if word == "Trash"@ {
        Some(OperationKind::Trash)
    } else if word == "Move"@ {
        Some(OperationKind::Move)
    } else if word == "Rename"@ {
        Some(OperationKind::Rename)
    } else {
        None
    }
}

/// An argument as text: its length, a colon, and the argument itself.
pub open spec fn arg_text(arg: Seq<char>) -> Seq<char> {
    digits_of(arg.len()) + seq![':'] + arg
}

/// Arguments as text: each behind a space.
pub open spec fn args_text(args: Seq<Seq<char>>) -> Seq<char>
    decreases args.len(),
{
    if args.len() == 0 {
        Seq::empty()
    } else {
        args_text(args.drop_last()) + seq![' '] + arg_text(args.last())
    }
}

/// An entry as text: one line with the time, the kind, the number of
/// arguments and the arguments.
pub open spec fn entry_text(e: EntryView) -> Seq<char> {
    digits_of(e.timestamp as nat) + seq![' '] + kind_text(e.operation.kind) + seq![' ']
        + digits_of(e.operation.args.len()) + args_text(e.operation.args) + seq!['\n']
}

/// A journal as text: its entries, oldest first.
pub open spec fn log_text(log: Seq<EntryView>) -> Seq<char>
    decreases log.len(),
{
    if log.len() == 0 {
        Seq::empty()
    } else {
        log_text(log.drop_last()) + entry_text(log.last())
    }
}

/// The kind named at the beginning of `s`, by the word that ends before
/// the first space, and the length of that word.
pub open spec fn kind_of(s: Seq<char>) -> Option<(OperationKind, int)> {
    let k = first_of(s, ' ');
    match kind_named(s.take(k)) {
        Some(kind) => Some((kind, k)),
        None => None,
    }
}

/// The argument written at the beginning of `s`, and how many characters
/// write it.
pub open spec fn arg_of(s: Seq<char>) -> Option<(Seq<char>, int)> {
    match number_of(s) {
        Some((len, k)) => if k < s.len() && s[k] == ':' && k + 1 + len <= s.len() {
            Some((s.subrange(k + 1, k + 1 + len), k + 1 + len))
        } else {
            None
        },
        None => None,
    }
}

/// The `count` arguments written at the beginning of `s`, each behind a
/// space, and how many characters write them.
pub open spec fn args_of(s: Seq<char>, count: nat) -> Option<(Seq<Seq<char>>, int)>
    decreases count,
{
    if count == 0 {
        Some((Seq::empty(), 0))
    } else if s.len() > 0 && s[0] == ' ' {
        match arg_of(s.skip(1)) {
            Some((arg, k)) => match args_of(s.skip(1 + k), (count - 1) as nat) {
                Some((rest, more)) => Some((seq![arg] + rest, 1 + k + more)),
                None => None,
            },
            None => None,
        }
    } else {
        None
    }
}

/// The arguments written at the beginning of `s` behind their number, up
/// to the end of the line, and how many characters write them.
pub open spec fn counted_of(s: Seq<char>) -> Option<(Seq<Seq<char>>, int)> {
    match number_of(s) {
        Some((count, c)) => match args_of(s.skip(c), count) {
            Some((args, d)) => if c + d < s.len() && s[c + d] == '\n' {
                Some((args, c + d + 1))
            } else {
                None
            },
            None => None,
        },
        None => None,
    }
}

/// The operation written at the beginning of `s`, up to the end of the
/// line, and how many characters write it.
pub open spec fn operation_of(s: Seq<char>) -> Option<(OperationView, int)> {
    match kind_of(s) {
        Some((kind, b)) => if b < s.len() {
            match counted_of(s.skip(b + 1)) {
                Some((args, k)) => Some((OperationView { kind, args }, b + 1 + k)),
                None => None,
            }
        } else {
            None
        },
        None => None,
    }
}

/// The entry written at the beginning of `s`, and the length of its line.
pub open spec fn entry_of(s: Seq<char>) -> Option<(EntryView, int)> {
    match number_of(s) {
        Some((timestamp, a)) => if a < s.len() && s[a] == ' ' {
            match operation_of(s.skip(a + 1)) {
                Some((operation, k)) => Some(
                    (EntryView { operation, timestamp: timestamp as u64 }, a + 1 + k),
                ),
                None => None,
            }
        } else {
            None
        },
        None => None,
    }
}

/// The journal that the text `s` writes, if it writes one: entry after
/// entry, up to the end of the text.
pub open spec fn log_of(s: Seq<char>) -> Option<Seq<EntryView>>
    decreases s.len(),
{
    if s.len() == 0 {
        Some(Seq::empty())
    } else {
        match entry_of(s) {
            Some((e, k)) => if 0 < k <= s.len() {
                match log_of(s.skip(k)) {
                    Some(rest) => Some(seq![e] + rest),
                    None => None,
                }
            } else {
                None
            },
            None => None,
        }
    }
}

/// The arguments can be written: there are no more of them, and none has
/// more characters, than a number of sixty-four bits counts.
pub open spec fn writable_args(args: Seq<Seq<char>>) -> bool {
    &&& args.len() <= u64::MAX
    &&& forall|j: int| 0 <= j < args.len() ==> (#[trigger] args[j]).len() <= u64::MAX
}

/// The entries of `log` can be written: see [`writable_args`].
pub open spec fn writable(log: Seq<EntryView>) -> bool {
    forall|i: int| 0 <= i < log.len() ==> writable_args((#[trigger] log[i]).operation.args)
}

/// The word that names a kind.
pub fn kind_name(kind: OperationKind) -> (word: &'static str)
    ensures
        word@ == kind_text(kind),
{
    match kind {
        OperationKind::Create => "Create",
        OperationKind::Delete => "Delete",
        OperationKind::CreateIn => "CreateIn",
        OperationKind::DeleteIn => "DeleteIn",
        OperationKind::Trash => "Trash",
        OperationKind::Move => "Move",
        OperationKind::Rename => "Rename",
    }
}

/// Writes one entry as a line at the end of `text`.
pub fn write_entry(text: &mut String, entry: &JournalEntry)
    ensures
        final(text)@ == old(text)@ + entry_text(entry@),
        writable_args(entry@.operation.args),
{
    write_number(text, entry.timestamp);
    text.append(" ");
    text.append(kind_name(entry.operation.kind));
    text.append(" ");
    let args = &entry.operation.args;
    let count: usize = args.len();
    write_number(text, count as u64);
    let ghost head = text@;
    let ghost all = texts(args@);
    proof {
        reveal_strlit(" ");
        assert(all.take(0) =~= Seq::<Seq<char>>::empty());
        assert(head + args_text(all.take(0)) =~= head);
    }
    let mut i: usize = 0;
    while i < count
        invariant
            i <= count,
            count == args.len(),
            all == texts(args@),
            text@ == head + args_text(all.take(i as int)),
            forall|j: int| 0 <= j < i ==> (#[trigger] all[j]).len() <= u64::MAX,
        decreases count - i,
    {
        let arg = args[i].as_str();
        let ghost before = text@;
        text.append(" ");
        write_number(text, arg.unicode_len() as u64);
        text.append(":");
        text.append(arg);
        proof {
            reveal_strlit(" ");
            reveal_strlit(":");
            assert(all.take(i + 1).drop_last() =~= all.take(i as int));
            assert(all.take(i + 1).last() == arg@);
            assert(text@ =~= before + seq![' '] + arg_text(arg@));
            assert(text@ =~= head + args_text(all.take(i + 1)));
        }
        i = i + 1;
    }
    text.append("\n");
    proof {
        reveal_strlit(" ");
        reveal_strlit("\n");
        assert(all.take(count as int) =~= all);
        assert(text@ =~= old(text)@ + entry_text(entry@));
    }
}

/// Writes the entries as text, oldest first: see [`log_text`].
pub fn encode_log(entries: &Vec<JournalEntry>) -> (text: String)
    ensures
        text@ == log_text(entries_view(entries@)),
        writable(entries_view(entries@)),
{
    let mut text = String::new();
    let ghost all = entries_view(entries@);
    let mut i: usize = 0;
    proof {
        assert(all.take(0) =~= Seq::<EntryView>::empty());
    }
    while i < entries.len()
        invariant
            i <= entries.len(),
            all == entries_view(entries@),
            text@ == log_text(all.take(i as int)),
            forall|j: int| 0 <= j < i ==> writable_args((#[trigger] all[j]).operation.args),
        decreases entries.len() - i,
    {
        write_entry(&mut text, &entries[i]);
        proof {
            assert(all.take(i + 1).drop_last() =~= all.take(i as int));
            assert(all.take(i + 1).last() == entries[i as int]@);
        }
        i = i + 1;
    }
    proof {
        assert(all.take(i as int) =~= all);
    }
    text
}

/// Reads the kind named in `chars` from the index `at` on: see
/// [`kind_of`]. Hands back the kind and the index behind its name.
fn read_kind(chars: &Vec<char>, at: usize) -> (found: Option<(OperationKind, usize)>)
    requires
        at <= chars.len(),
    ensures
        match kind_of(chars@.skip(at as int)) {
            Some((kind, k)) => found matches Some((read, end)) && read == kind && end == at + k
                && at <= end <= chars.len(),
            None => found.is_none(),
        },
{
    let ghost tail = chars@.skip(at as int);
    let n: usize = chars.len();
    let mut end: usize = at;
    while end < n && chars[end] != ' '
        invariant
            at <= end <= n,
            n == chars.len(),
            tail == chars@.skip(at as int),
            forall|j: int| 0 <= j < end - at ==> tail[j] != ' ',
        decreases n - end,
    {
        proof {
            assert(tail[end - at] == chars[end as int]);
        }
        end = end + 1;
    }
    proof {
        if end < n {
            assert(tail[end - at] == chars[end as int]);
        }
        lemma_first_of(tail, ' ', end - at);
        assert(tail.take(end - at) =~= chars@.subrange(at as int, end as int));
    }
    let kind = if spells(chars, at, end, "Create") {
        OperationKind::Create
    } else if spells(chars, at, end, "Delete") {
        OperationKind::Delete
    } else if spells(chars, at, end, "CreateIn") {
        OperationKind::CreateIn
    } else if spells(chars, at, end, "DeleteIn") {
        OperationKind::DeleteIn
    } else if spells(chars, at, end, "Trash") {
        OperationKind::Trash
    } else if spells(chars, at, end, "Move") {
        OperationKind::Move
    } else if spells(chars, at, end, "Rename") {
        OperationKind::Rename
    } else {
        return None;
    };
    Some((kind, end))
}

/// Reads `count` arguments of `text`, whose characters are `chars`, from
/// the index `at` on: see [`args_of`]. Hands back the arguments and the
/// index behind them.
fn read_args(text: &str, chars: &Vec<char>, at: usize, count: u64) -> (found: Option<
    (Vec<String>, usize),
>)
    requires
        chars@ == text@,
        at <= chars.len(),
    ensures
        match args_of(chars@.skip(at as int), count as nat) {
            Some((args, k)) => found matches Some((read, end)) && texts(read@) == args && end == at
                + k && at <= end <= chars.len(),
            None => found.is_none(),
        },
{
    let ghost start = chars@.skip(at as int);
    let n: usize = chars.len();
    let mut args: Vec<String> = Vec::new();
    let mut pos: usize = at;
    let mut i: u64 = 0;
    proof {
        assert(texts(args@) =~= Seq::<Seq<char>>::empty());
        lemma_args_so_far(start, count as nat);
    }
    while i < count
        invariant
            i <= count,
            at <= pos <= n,
            n == chars.len(),
            chars@ == text@,
            start == chars@.skip(at as int),
            args_of(start, count as nat) == following(
                texts(args@),
                pos - at,
                args_of(chars@.skip(pos as int), (count - i) as nat),
            ),
        decreases count - i,
    {
        let ghost here = chars@.skip(pos as int);
        let ghost before = texts(args@);
        if pos >= n || chars[pos] != ' ' {
            proof {
                if pos < n {
                    assert(here[0] == chars[pos as int]);
                }
            }
            return None;
        }
        proof {
            assert(here[0] == chars[pos as int]);
            assert(here.skip(1) =~= chars@.skip(pos + 1));
        }
        let ghost piece = chars@.skip(pos + 1);
        let (len, colon) = match read_number(chars, pos + 1) {
            Some(found) => found,
            None => {
                return None;
            },
        };
        let ghost k = colon - pos - 1;
        if colon >= n || chars[colon] != ':' {
            proof {
                if colon < n {
                    assert(piece[k] == chars[colon as int]);
                }
            }
            return None;
        }
        proof {
            assert(piece[k] == chars[colon as int]);
        }
        if len > (n - colon - 1) as u64 {
            return None;
        }
        let from: usize = colon + 1;
        let to: usize = from + len as usize;
        let arg = String::from_str(text.substring_char(from, to));
        args.push(arg);
        proof {
            assert(piece.subrange(k + 1, k + 1 + len) =~= chars@.subrange(from as int, to as int));
            assert(arg_of(piece) == Some((arg@, k + 1 + len)));
            assert(texts(args@) =~= before.push(arg@));
            assert(here.skip(1 + (k + 1 + len)) =~= chars@.skip(to as int));
            lemma_args_step(here, before, pos - at, (count - i) as nat);
        }
        pos = to;
        i = i + 1;
    }
    proof {
        assert(texts(args@) + Seq::<Seq<char>>::empty() =~= texts(args@));
    }
    Some((args, pos))
}

/// Reads the arguments behind their number, up to the end of the line:
/// see [`counted_of`].
fn read_counted(text: &str, chars: &Vec<char>, at: usize) -> (found: Option<(Vec<String>, usize)>)
    requires
        chars@ == text@,
        at <= chars.len(),
    ensures
        match counted_of(chars@.skip(at as int)) {
            Some((args, k)) => found matches Some((read, end)) && texts(read@) == args && end == at
                + k && at < end <= chars.len(),
            None => found.is_none(),
        },
{
    let ghost s = chars@.skip(at as int);
    let (count, pc) = match read_number(chars, at) {
        Some(found) => found,
        None => {
            return None;
        },
    };
    proof {
        assert(s.skip(pc - at) =~= chars@.skip(pc as int));
    }
    let (args, pd) = match read_args(text, chars, pc, count) {
        Some(found) => found,
        None => {
            return None;
        },
    };
    if pd >= chars.len() || chars[pd] != '\n' {
        proof {
            if pd < chars.len() {
                assert(s[pd - at] == chars[pd as int]);
            }
        }
        return None;
    }
    proof {
        assert(s[pd - at] == chars[pd as int]);
    }
    Some((args, pd + 1))
}

/// Reads an operation, up to the end of the line: see [`operation_of`].
fn read_operation(text: &str, chars: &Vec<char>, at: usize) -> (found: Option<(Operation, usize)>)
    requires
        chars@ == text@,
        at <= chars.len(),
    ensures
        match operation_of(chars@.skip(at as int)) {
            Some((op, k)) => found matches Some((read, end)) && read@ == op && end == at + k && at
                < end <= chars.len(),
            None => found.is_none(),
        },
{
    let ghost s = chars@.skip(at as int);
    let (kind, pb) = match read_kind(chars, at) {
        Some(found) => found,
        None => {
            return None;
        },
    };
    if pb >= chars.len() {
        return None;
    }
    proof {
        assert(s.skip(pb - at + 1) =~= chars@.skip(pb + 1));
    }
    let (args, end) = match read_counted(text, chars, pb + 1) {
        Some(found) => found,
        None => {
            return None;
        },
    };
    Some((Operation { kind, args }, end))
}

/// Reads one entry of `text`, whose characters are `chars`, from the index
/// `at` on: see [`entry_of`]. Hands back the entry and the index behind
/// its line.
fn read_entry(text: &str, chars: &Vec<char>, at: usize) -> (found: Option<(JournalEntry, usize)>)
    requires
        chars@ == text@,
        at <= chars.len(),
    ensures
        match entry_of(chars@.skip(at as int)) {
            Some((e, k)) => found matches Some((entry, end)) && entry@ == e && end == at + k && at
                < end <= chars.len(),
            None => found.is_none(),
        },
{
    let ghost s = chars@.skip(at as int);
    let (timestamp, pa) = match read_number(chars, at) {
        Some(found) => found,
        None => {
            return None;
        },
    };
    if pa >= chars.len() || chars[pa] != ' ' {
        proof {
            if pa < chars.len() {
                assert(s[pa - at] == chars[pa as int]);
            }
        }
        return None;
    }
    proof {
        assert(s[pa - at] == chars[pa as int]);
        assert(s.skip(pa - at + 1) =~= chars@.skip(pa + 1));
    }
    let (operation, end) = match read_operation(text, chars, pa + 1) {
        Some(found) => found,
        None => {
            return None;
        },
    };
    Some((JournalEntry { operation, timestamp }, end))
}

/// What reading on gives, after the arguments `done` were read from the
/// first `used` characters.
pub open spec fn following(
    done: Seq<Seq<char>>,
    used: int,
    rest: Option<(Seq<Seq<char>>, int)>,
) -> Option<(Seq<Seq<char>>, int)> {
    match rest {
        Some((more, k)) => Some((done + more, used + k)),
        None => None,
    }
}

/// Before any argument is read, reading on gives everything.
proof fn lemma_args_so_far(s: Seq<char>, count: nat)
    ensures
        args_of(s, count) == following(Seq::empty(), 0, args_of(s, count)),
{
    match args_of(s, count) {
        Some((more, k)) => {
            assert(Seq::<Seq<char>>::empty() + more =~= more);
        },
        None => {},
    }
}

/// Reading one argument more: what reading on gave before is what it gives
/// behind that argument.
proof fn lemma_args_step(here: Seq<char>, done: Seq<Seq<char>>, used: int, left: nat)
    requires
        left > 0,
        here.len() > 0,
        here[0] == ' ',
        arg_of(here.skip(1)) is Some,
    ensures
        ({
            let (arg, k) = arg_of(here.skip(1))->0;
            following(done, used, args_of(here, left)) == following(
                done.push(arg),
                used + 1 + k,
                args_of(here.skip(1 + k), (left - 1) as nat),
            )
        }),
{
    let (arg, k) = arg_of(here.skip(1))->0;
    match args_of(here.skip(1 + k), (left - 1) as nat) {
        Some((rest, more)) => {
            assert(done + (seq![arg] + rest) =~= done.push(arg) + rest);
        },
        None => {},
    }
}

/// Reads the journal that `text` writes: see [`log_of`]. Text that writes
/// no journal is refused.
pub fn decode_log(text: &str) -> (outcome: Result<Vec<JournalEntry>, Error>)
    ensures
        match log_of(text@) {
            Some(log) => outcome matches Ok(entries) && entries_view(entries@) == log,
            None => outcome == Err::<Vec<JournalEntry>, Error>(Error::IoFailure),
        },
        outcome matches Ok(entries) ==> log_text(entries_view(entries@)) == text@,
{
    let chars = chars_of(text);
    let n: usize = chars.len();
    let mut entries: Vec<JournalEntry> = Vec::new();
    let mut at: usize = 0;
    proof {
        assert(chars@.skip(0) =~= text@);
        assert(entries_view(entries@) =~= Seq::<EntryView>::empty());
        match log_of(text@) {
            Some(rest) => {
                assert(Seq::<EntryView>::empty() + rest =~= rest);
            },
            None => {},
        }
    }
    while at < n
        invariant
            at <= n,
            n == chars.len(),
            chars@ == text@,
            log_of(text@) == (match log_of(chars@.skip(at as int)) {
                Some(rest) => Some(entries_view(entries@) + rest),
                None => None,
            }),
        decreases n - at,
    {
        let ghost before = entries_view(entries@);
        let ghost here = chars@.skip(at as int);
        let (entry, end) = match read_entry(text, &chars, at) {
            Some(found) => found,
            None => {
                return Err(Error::IoFailure);
            },
        };
        entries.push(entry);
        proof {
            assert(entries_view(entries@) =~= before.push(entry@));
            assert(here.skip(end - at) =~= chars@.skip(end as int));
            match log_of(chars@.skip(end as int)) {
                Some(rest) => {
                    assert(before + (seq![entry@] + rest) =~= before.push(entry@) + rest);
                },
                None => {},
            }
        }
        at = end;
    }
    proof {
        assert(chars@.skip(at as int).len() == 0);
        assert(entries_view(entries@) + Seq::<EntryView>::empty() =~= entries_view(entries@));
        lemma_log_read(text@);
    }
    Ok(entries)
}

/// The word of a kind holds no space and names that kind.
pub proof fn lemma_kind_text(kind: OperationKind)
    ensures
        kind_text(kind).len() > 0,
        forall|i: int| 0 <= i < kind_text(kind).len() ==> kind_text(kind)[i] != ' ',
        kind_named(kind_text(kind)) == Some(kind),
{
    reveal_strlit("Create");
    reveal_strlit("Delete");
    reveal_strlit("CreateIn");
    reveal_strlit("DeleteIn");
    reveal_strlit("Trash");
    reveal_strlit("Move");
    reveal_strlit("Rename");
    let word = kind_text(kind);
    assert("Create"@[0] == 'C' && "Delete"@[0] == 'D' && "CreateIn"@[0] == 'C' && "DeleteIn"@[0]
        == 'D' && "Trash"@[0] == 'T' && "Move"@[0] == 'M' && "Rename"@[0] == 'R');
    assert forall|i: int| 0 <= i < word.len() implies word[i] != ' ' by {
        match kind {
            OperationKind::Create => {
                assert("Create"@[1] == 'r' && "Create"@[2] == 'e' && "Create"@[3] == 'a'
                    && "Create"@[4] == 't' && "Create"@[5] == 'e');
            },
            OperationKind::Delete => {
                assert("Delete"@[1] == 'e' && "Delete"@[2] == 'l' && "Delete"@[3] == 'e'
                    && "Delete"@[4] == 't' && "Delete"@[5] == 'e');
            },
            OperationKind::CreateIn => {
                assert("CreateIn"@[1] == 'r' && "CreateIn"@[2] == 'e' && "CreateIn"@[3] == 'a'
                    && "CreateIn"@[4] == 't' && "CreateIn"@[5] == 'e' && "CreateIn"@[6] == 'I'
                    && "CreateIn"@[7] == 'n');
            },
            OperationKind::DeleteIn => {
                assert("DeleteIn"@[1] == 'e' && "DeleteIn"@[2] == 'l' && "DeleteIn"@[3] == 'e'
                    && "DeleteIn"@[4] == 't' && "DeleteIn"@[5] == 'e' && "DeleteIn"@[6] == 'I'
                    && "DeleteIn"@[7] == 'n');
            },
            OperationKind::Trash => {
                assert("Trash"@[1] == 'r' && "Trash"@[2] == 'a' && "Trash"@[3] == 's' && "Trash"@[4]
                    == 'h');
            },
            OperationKind::Move => {
                assert("Move"@[1] == 'o' && "Move"@[2] == 'v' && "Move"@[3] == 'e');
            },
            OperationKind::Rename => {
                assert("Rename"@[1] == 'e' && "Rename"@[2] == 'n' && "Rename"@[3] == 'a'
                    && "Rename"@[4] == 'm' && "Rename"@[5] == 'e');
            },
        }
    }
}

/// The word of a kind, followed by a space, is read as that kind.
pub proof fn lemma_kind_round_trip(kind: OperationKind, rest: Seq<char>)
    ensures
        kind_of(kind_text(kind) + seq![' '] + rest) == Some((kind, kind_text(kind).len() as int)),
{
    let word = kind_text(kind);
    let s = word + seq![' '] + rest;
    lemma_kind_text(kind);
    assert forall|j: int| 0 <= j < word.len() implies s[j] != ' ' by {
        assert(s[j] == word[j]);
    }
    assert(s[word.len() as int] == ' ');
    lemma_first_of(s, ' ', word.len() as int);
    assert(s.take(word.len() as int) =~= word);
}

/// An argument as text, whatever follows it, is read as that argument.
pub proof fn lemma_arg_round_trip(arg: Seq<char>, rest: Seq<char>)
    requires
        arg.len() <= u64::MAX,
    ensures
        arg_of(arg_text(arg) + rest) == Some((arg, arg_text(arg).len() as int)),
{
    let digits = digits_of(arg.len());
    let s = arg_text(arg) + rest;
    let behind = seq![':'] + arg + rest;
    assert(s =~= digits + behind);
    assert(behind[0] == ':');
    lemma_number_of(arg.len(), behind);
    let k = digits.len() as int;
    assert(s[k] == ':');
    assert(s.subrange(k + 1, k + 1 + arg.len()) =~= arg);
}

/// Arguments as text begin with the first argument behind a space.
pub proof fn lemma_args_front(args: Seq<Seq<char>>)
    requires
        args.len() > 0,
    ensures
        args_text(args) == seq![' '] + arg_text(args[0]) + args_text(args.skip(1)),
    decreases args.len(),
{
    if args.len() == 1 {
        assert(args.drop_last() =~= Seq::<Seq<char>>::empty());
        assert(args.skip(1) =~= Seq::<Seq<char>>::empty());
        assert(args_text(args.drop_last()) =~= Seq::<char>::empty());
        assert(args_text(args) =~= seq![' '] + arg_text(args[0]) + args_text(args.skip(1)));
    } else {
        let front = args.drop_last();
        lemma_args_front(front);
        assert(front.skip(1) =~= args.skip(1).drop_last());
        assert(front[0] == args[0]);
        assert(args.skip(1).last() == args.last());
        assert(args_text(args) =~= seq![' '] + arg_text(args[0]) + args_text(args.skip(1)));
    }
}

/// Arguments as text, whatever follows them, are read as these arguments.
pub proof fn lemma_args_round_trip(args: Seq<Seq<char>>, rest: Seq<char>)
    requires
        forall|j: int| 0 <= j < args.len() ==> (#[trigger] args[j]).len() <= u64::MAX,
    ensures
        args_of(args_text(args) + rest, args.len()) == Some((args, args_text(args).len() as int)),
    decreases args.len(),
{
    let s = args_text(args) + rest;
    if args.len() == 0 {
        assert(args =~= Seq::<Seq<char>>::empty());
    } else {
        let first = args[0];
        let others = args.skip(1);
        lemma_args_front(args);
        let behind = args_text(others) + rest;
        assert(s =~= seq![' '] + (arg_text(first) + behind));
        assert(s[0] == ' ');
        assert(s.skip(1) =~= arg_text(first) + behind);
        lemma_arg_round_trip(first, behind);
        let k = arg_text(first).len() as int;
        assert(s.skip(1 + k) =~= behind);
        assert forall|j: int| 0 <= j < others.len() implies (#[trigger] others[j]).len()
            <= u64::MAX by {
            assert(others[j] == args[j + 1]);
        }
        lemma_args_round_trip(others, rest);
        assert(seq![first] + others =~= args);
        assert(args_text(args).len() == 1 + k + args_text(others).len());
    }
}

/// What stands behind the first part of a text.
proof fn lemma_behind(s: Seq<char>, front: Seq<char>, back: Seq<char>)
    requires
        s == front + back,
    ensures
        s.skip(front.len() as int) == back,
        s.len() == front.len() + back.len(),
        back.len() > 0 ==> s[front.len() as int] == back[0],
{
    assert(s.skip(front.len() as int) =~= back);
}

/// The arguments of an operation as text: their number, the arguments, and
/// the end of the line.
pub open spec fn counted_text(args: Seq<Seq<char>>) -> Seq<char> {
    digits_of(args.len()) + (args_text(args) + seq!['\n'])
}

/// An operation as text: its kind, a space, and its arguments.
pub open spec fn operation_text(op: OperationView) -> Seq<char> {
    kind_text(op.kind) + seq![' '] + counted_text(op.args)
}

/// The arguments behind their number, whatever follows the line, are read
/// as these arguments.
pub proof fn lemma_counted_round_trip(args: Seq<Seq<char>>, rest: Seq<char>)
    requires
        writable_args(args),
    ensures
        counted_of(counted_text(args) + rest) == Some((args, counted_text(args).len() as int)),
{
    let count = digits_of(args.len());
    let list = args_text(args);
    let s = counted_text(args) + rest;
    let after_list = seq!['\n'] + rest;
    let behind = list + after_list;
    assert(s =~= count + behind);
    if args.len() > 0 {
        lemma_args_front(args);
        assert(behind[0] == list[0]);
    } else {
        assert(list =~= Seq::<char>::empty());
        assert(behind[0] == '\n');
    }
    lemma_number_of(args.len(), behind);
    lemma_behind(s, count, behind);
    lemma_args_round_trip(args, after_list);
    lemma_behind(behind, list, after_list);
    assert(s[(count.len() + list.len()) as int] == behind[list.len() as int]);
}

/// An operation as text, whatever follows the line, is read as that
/// operation.
pub proof fn lemma_operation_round_trip(op: OperationView, rest: Seq<char>)
    requires
        writable_args(op.args),
    ensures
        operation_of(operation_text(op) + rest) == Some((op, operation_text(op).len() as int)),
{
    let word = kind_text(op.kind);
    let s = operation_text(op) + rest;
    let behind = counted_text(op.args) + rest;
    assert(s =~= word + seq![' '] + behind);
    lemma_kind_round_trip(op.kind, behind);
    lemma_behind(s, word + seq![' '], behind);
    lemma_counted_round_trip(op.args, rest);
    lemma_digits(op.args.len());
}

/// The line of an entry is its time, a space, and its operation.
proof fn lemma_entry_text(e: EntryView)
    ensures
        entry_text(e) == digits_of(e.timestamp as nat) + (seq![' '] + operation_text(e.operation)),
{
    assert(entry_text(e) =~= digits_of(e.timestamp as nat) + (seq![' '] + operation_text(
        e.operation,
    )));
}

/// An entry as text, whatever follows it, is read as that entry.
pub proof fn lemma_entry_round_trip(e: EntryView, rest: Seq<char>)
    requires
        writable_args(e.operation.args),
    ensures
        entry_of(entry_text(e) + rest) == Some((e, entry_text(e).len() as int)),
        entry_text(e).len() > 0,
{
    let time = digits_of(e.timestamp as nat);
    let s = entry_text(e) + rest;
    let behind = operation_text(e.operation) + rest;
    let after_time = seq![' '] + behind;
    lemma_entry_text(e);
    assert(s =~= time + after_time);
    assert(after_time[0] == ' ');
    lemma_number_of(e.timestamp as nat, after_time);
    lemma_behind(s, time, after_time);
    assert(s.skip(time.len() as int + 1) == behind) by {
        assert(s.skip(time.len() as int + 1) =~= behind);
    }
    lemma_operation_round_trip(e.operation, rest);
    lemma_digits(e.timestamp as nat);
}

/// A journal as text begins with its oldest entry.
pub proof fn lemma_log_front(log: Seq<EntryView>)
    requires
        log.len() > 0,
    ensures
        log_text(log) == entry_text(log[0]) + log_text(log.skip(1)),
    decreases log.len(),
{
    if log.len() == 1 {
        assert(log.drop_last() =~= Seq::<EntryView>::empty());
        assert(log.skip(1) =~= Seq::<EntryView>::empty());
        assert(log_text(log.drop_last()) =~= Seq::<char>::empty());
        assert(log_text(log) =~= entry_text(log[0]) + log_text(log.skip(1)));
    } else {
        let front = log.drop_last();
        lemma_log_front(front);
        assert(front.skip(1) =~= log.skip(1).drop_last());
        assert(front[0] == log[0]);
        assert(log.skip(1).last() == log.last());
        assert(log_text(log) =~= entry_text(log[0]) + log_text(log.skip(1)));
    }
}

/// A journal that was written as text is read back as it was.
pub proof fn lemma_log_round_trip(log: Seq<EntryView>)
    requires
        writable(log),
    ensures
        log_of(log_text(log)) == Some(log),
    decreases log.len(),
{
    if log.len() == 0 {
        assert(log =~= Seq::<EntryView>::empty());
    } else {
        let first = log[0];
        let others = log.skip(1);
        lemma_log_front(log);
        let s = log_text(log);
        lemma_entry_round_trip(first, log_text(others));
        let k = entry_text(first).len() as int;
        assert(s.skip(k) =~= log_text(others));
        assert forall|i: int| 0 <= i < others.len() implies writable_args(
            (#[trigger] others[i]).operation.args,
        ) by {
            assert(others[i] == log[i + 1]);
        }
        lemma_log_round_trip(others);
        assert(seq![first] + others =~= log);
    }
}

/// Where a kind is read, its word stands there, and a space behind it
/// unless the text ends.
pub proof fn lemma_kind_read(s: Seq<char>)
    requires
        kind_of(s) is Some,
    ensures
        ({
            let (kind, k) = kind_of(s).unwrap();
            &&& 0 <= k <= s.len()
            &&& s.take(k) == kind_text(kind)
            &&& k < s.len() ==> s[k] == ' '
        }),
{
    lemma_first_of_bounds(s, ' ');
}

/// Where an argument is read, it stands there behind its length.
pub proof fn lemma_arg_read(s: Seq<char>)
    requires
        arg_of(s) is Some,
    ensures
        ({
            let (arg, k) = arg_of(s).unwrap();
            &&& 0 < k <= s.len()
            &&& s.take(k) == arg_text(arg)
        }),
{
    let (arg, k) = arg_of(s).unwrap();
    let (len, j) = number_of(s).unwrap();
    lemma_number_read(s);
    assert(s.take(k) =~= s.take(j) + seq![':'] + arg);
}

/// Where arguments are read, they stand there, each behind a space, and
/// there are as many as were asked for.
pub proof fn lemma_args_read(s: Seq<char>, count: nat)
    requires
        args_of(s, count) is Some,
    ensures
        ({
            let (args, k) = args_of(s, count).unwrap();
            &&& 0 <= k <= s.len()
            &&& args.len() == count
            &&& s.take(k) == args_text(args)
        }),
    decreases count,
{
    let (args, k) = args_of(s, count).unwrap();
    if count == 0 {
        assert(s.take(0) =~= Seq::<char>::empty());
    } else {
        let (arg, j) = arg_of(s.skip(1)).unwrap();
        let behind = s.skip(1 + j);
        lemma_arg_read(s.skip(1));
        lemma_args_read(behind, (count - 1) as nat);
        let (rest, more) = args_of(behind, (count - 1) as nat).unwrap();
        lemma_args_front(args);
        assert(args.skip(1) =~= rest);
        assert(args[0] == arg);
        assert(s.take(k) =~= seq![' '] + s.skip(1).take(j) + behind.take(more));
    }
}

/// Where the arguments behind their number are read up to the end of the
/// line, they stand there.
pub proof fn lemma_counted_read(s: Seq<char>)
    requires
        counted_of(s) is Some,
    ensures
        ({
            let (args, k) = counted_of(s).unwrap();
            &&& 0 < k <= s.len()
            &&& s.take(k) == counted_text(args)
        }),
{
    let (args, k) = counted_of(s).unwrap();
    let (count, c) = number_of(s).unwrap();
    lemma_number_read(s);
    lemma_args_read(s.skip(c), count);
    let (list, d) = args_of(s.skip(c), count).unwrap();
    assert(s.take(k) =~= s.take(c) + (s.skip(c).take(d) + seq!['\n']));
}

/// Where an operation is read up to the end of the line, it stands there.
pub proof fn lemma_operation_read(s: Seq<char>)
    requires
        operation_of(s) is Some,
    ensures
        ({
            let (op, k) = operation_of(s).unwrap();
            &&& 0 < k <= s.len()
            &&& s.take(k) == operation_text(op)
        }),
{
    let (op, k) = operation_of(s).unwrap();
    let (kind, b) = kind_of(s).unwrap();
    lemma_kind_read(s);
    lemma_counted_read(s.skip(b + 1));
    let (args, j) = counted_of(s.skip(b + 1)).unwrap();
    assert(s.take(k) =~= s.take(b) + seq![' '] + s.skip(b + 1).take(j));
}

/// Where an entry is read, its line stands there.
pub proof fn lemma_entry_read(s: Seq<char>)
    requires
        entry_of(s) is Some,
    ensures
        ({
            let (e, k) = entry_of(s).unwrap();
            &&& 0 < k <= s.len()
            &&& s.take(k) == entry_text(e)
        }),
{
    let (e, k) = entry_of(s).unwrap();
    let (timestamp, a) = number_of(s).unwrap();
    lemma_number_read(s);
    lemma_operation_read(s.skip(a + 1));
    let (op, j) = operation_of(s.skip(a + 1)).unwrap();
    lemma_entry_text(e);
    assert(s.take(k) =~= s.take(a) + (seq![' '] + s.skip(a + 1).take(j)));
}

/// A text that is read as a journal is that journal as text: nothing in it
/// goes unread, and nothing is read that does not stand in it.
pub proof fn lemma_log_read(s: Seq<char>)
    requires
        log_of(s) is Some,
    ensures
        log_text(log_of(s).unwrap()) == s,
    decreases s.len(),
{
    let log = log_of(s).unwrap();
    if s.len() == 0 {
        assert(log_text(log) =~= s);
    } else {
        let (e, k) = entry_of(s).unwrap();
        lemma_entry_read(s);
        lemma_log_read(s.skip(k));
        let rest = log_of(s.skip(k)).unwrap();
        lemma_log_front(log);
        assert(log.skip(1) =~= rest);
        assert(log[0] == e);
        assert(s =~= s.take(k) + s.skip(k));
    }
}

} // verus!
