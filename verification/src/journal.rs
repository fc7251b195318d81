//! The journal: the operations that were carried out, oldest first. Only
//! the newest can be undone, and each at most once.

use vstd::prelude::*;
use crate::error::Error;
use crate::codec::{decode_log, encode_log, lemma_log_round_trip, log_of, log_text};
use crate::operation::{
    is_reversible, push_timing, reversible, timing_of, Operation, OperationView, PushTiming,
};

verus! {

/// One record of the journal: an operation and when it was recorded.
#[derive(Debug, PartialEq, Eq)]
pub struct JournalEntry {
    pub operation: Operation,
    pub timestamp: u64,
}

/// What a [`JournalEntry`] stands for.
pub struct EntryView {
    pub operation: OperationView,
    pub timestamp: u64,
}

impl View for JournalEntry {
    type V = EntryView;

    open spec fn view(&self) -> EntryView {
        EntryView { operation: self.operation@, timestamp: self.timestamp }
    }
}

impl Clone for JournalEntry {
    fn clone(&self) -> (copy: JournalEntry)
        ensures
            copy@ == self@,
    {
        JournalEntry { operation: self.operation.clone(), timestamp: self.timestamp }
    }
}

/// The views of the entries in `entries`, in order.
pub open spec fn entries_view(entries: Seq<JournalEntry>) -> Seq<EntryView> {
    Seq::new(entries.len(), |i: int| entries[i]@)
}

/// Every operation in `log` has the arguments that its kind needs.
pub open spec fn all_valid(log: Seq<EntryView>) -> bool {
    forall|i: int| 0 <= i < log.len() ==> (#[trigger] log[i]).operation.valid()
}

/// What an undo finds in the journal `log`: nothing, an operation that
/// cannot be taken back, or the operation to take back. It is always the
/// newest entry that is looked at.
pub open spec fn undo_target(log: Seq<EntryView>) -> Result<OperationView, Error> {
    if log.len() == 0 {
        Err(Error::JournalEmpty)
    } else if !reversible(log.last().operation.kind) {
        Err(Error::Unrecoverable)
    } else {
        Ok(log.last().operation)
    }
}

/// The journal after an undo was begun: an operation that cannot be taken
/// back has left it; anything else is still there.
pub open spec fn after_begin(log: Seq<EntryView>) -> Seq<EntryView> {
    if log.len() > 0 && !reversible(log.last().operation.kind) {
        log.drop_last()
    } else {
        log
    }
}

/// The journal after an undo has ended: the newest entry has left it where
/// it was taken back, and stays where that failed.
pub open spec fn after_finish(log: Seq<EntryView>, reversed: bool) -> Seq<EntryView> {
    if reversed && log.len() > 0 {
        log.drop_last()
    } else {
        log
    }
}

/// The journal `log` once the operation `op` is about to begin at the time
/// `now`: an operation of a kind that is recorded before its change is on
/// record from here on, whatever comes of it.
pub open spec fn recorded_before(log: Seq<EntryView>, op: OperationView, now: u64) -> Seq<
    EntryView,
> {
    if op.valid() && timing_of(op.kind) == PushTiming::Before {
        log.push(EntryView { operation: op, timestamp: now })
    } else {
        log
    }
}

/// The journal `log` once the operation `op` has ended at the time `now`:
/// an operation of a kind that is recorded after its change is put on
/// record where it has succeeded, and only there.
pub open spec fn recorded_after(
    log: Seq<EntryView>,
    op: OperationView,
    now: u64,
    succeeded: bool,
) -> Seq<EntryView> {
    if op.valid() && timing_of(op.kind) == PushTiming::After && succeeded {
        log.push(EntryView { operation: op, timestamp: now })
    } else {
        log
    }
}

/// The journal.
pub struct Journal {
    entries: Vec<JournalEntry>,
}

impl View for Journal {
    type V = Seq<EntryView>;

    closed spec fn view(&self) -> Seq<EntryView> {
        entries_view(self.entries@)
    }
}

impl Journal {
    /// Every recorded operation has the arguments that its kind needs.
    pub open spec fn wf(&self) -> bool {
        all_valid(self@)
    }

    /// A journal without entries.
    pub fn new() -> (journal: Journal)
        ensures
            journal@ == Seq::<EntryView>::empty(),
            journal.wf(),
    {
        let journal = Journal { entries: Vec::new() };
        proof {
            assert(journal@ =~= Seq::<EntryView>::empty());
        }
        journal
    }

    /// A journal that holds the given entries, oldest first, as they were
    /// read from where the journal is kept. Entries that lack the arguments
    /// their kind needs are refused, and with them the whole log.
    pub fn from_entries(entries: Vec<JournalEntry>) -> (outcome: Result<Journal, Error>)
        ensures
            outcome.is_ok() == all_valid(entries_view(entries@)),
            outcome matches Ok(journal) ==> journal@ == entries_view(entries@) && journal.wf(),
            outcome matches Err(e) ==> e == Error::InvalidPath,
    {
        let mut i: usize = 0;
        while i < entries.len()
            invariant
                i <= entries.len(),
                forall|j: int| 0 <= j < i ==> (#[trigger] entries_view(entries@)[j]).operation.valid(),
            decreases entries.len() - i,
        {
            if !entries[i].operation.is_valid() {
                proof {
                    assert(!entries_view(entries@)[i as int].operation.valid());
                }
                return Err(Error::InvalidPath);
            }
            i = i + 1;
        }
        Ok(Journal { entries })
    }

    /// How many entries the journal holds.
    pub fn len(&self) -> (n: usize)
        ensures
            n == self@.len(),
    {
        self.entries.len()
    }

    /// Whether the journal holds no entry.
    pub fn is_empty(&self) -> (empty: bool)
        ensures
            empty == (self@.len() == 0),
    {
        self.entries.len() == 0
    }

    /// Records `operation` as the newest entry. An operation that lacks the
    /// arguments its kind needs is refused, and the journal stays as it is.
    pub fn push(&mut self, operation: Operation, timestamp: u64) -> (outcome: Result<(), Error>)
        requires
            old(self).wf(),
        ensures
            final(self).wf(),
            outcome.is_ok() == operation@.valid(),
            outcome.is_ok() ==> final(self)@ == old(self)@.push(
                EntryView { operation: operation@, timestamp },
            ),
            outcome matches Err(e) ==> e == Error::InvalidPath && final(self)@ == old(self)@,
    {
        if !operation.is_valid() {
            return Err(Error::InvalidPath);
        }
        let entry = JournalEntry { operation, timestamp };
        self.entries.push(entry);
        proof {
            assert(self@ =~= old(self)@.push(entry@));
        }
        Ok(())
    }

    /// Records the operation that is about to begin, where its kind is
    /// recorded before the change: see [`recorded_before`].
    pub fn record_before(&mut self, operation: &Operation, now: u64)
        requires
            old(self).wf(),
        ensures
            final(self).wf(),
            final(self)@ == recorded_before(old(self)@, operation@, now),
    {
        if operation.is_valid() {
            match push_timing(operation.kind) {
                PushTiming::Before => {
                    let pushed = self.push(operation.clone(), now);
                },
                PushTiming::After => {},
            }
        }
    }

    /// Records the operation that has ended, where its kind is recorded
    /// after the change and the change has succeeded: see
    /// [`recorded_after`].
    pub fn record_after(&mut self, operation: &Operation, now: u64, succeeded: bool)
        requires
            old(self).wf(),
        ensures
            final(self).wf(),
            final(self)@ == recorded_after(old(self)@, operation@, now, succeeded),
    {
        if succeeded && operation.is_valid() {
            match push_timing(operation.kind) {
                PushTiming::After => {
                    let pushed = self.push(operation.clone(), now);
                },
                PushTiming::Before => {},
            }
        }
    }

    /// The journal as text, as it is kept between runs. Reading the text
    /// gives the journal back.
    pub fn encode(&self) -> (text: String)
        ensures
            text@ == log_text(self@),
            log_of(text@) == Some(self@),
    {
        let text = encode_log(&self.entries);
        proof {
            lemma_log_round_trip(self@);
        }
        text
    }

    /// Reads a journal from the text that was kept. Text that writes no
    /// journal is refused as a failure of the store; a journal in which an
    /// operation lacks the arguments its kind needs is refused as invalid.
    pub fn decode(text: &str) -> (outcome: Result<Journal, Error>)
        ensures
            match log_of(text@) {
                None => outcome matches Err(e) && e == Error::IoFailure,
                Some(log) => if all_valid(log) {
                    outcome matches Ok(journal) && journal@ == log && journal.wf()
                } else {
                    outcome matches Err(e) && e == Error::InvalidPath
                },
            },
    {
        match decode_log(text) {
            Ok(entries) => Journal::from_entries(entries),
            Err(e) => Err(e),
        }
    }

    /// The entry at index `i`, counted from the oldest; nothing where the
    /// journal is not that long.
    pub fn entry(&self, i: usize) -> (found: Option<&JournalEntry>)
        ensures
            i < self@.len() ==> found.is_some() && found.unwrap()@ == self@[i as int],
            i >= self@.len() ==> found.is_none(),
    {
        if i < self.entries.len() {
            Some(&self.entries[i])
        } else {
            None
        }
    }

    /// All entries, oldest first. The journal stays as it is. An empty
    /// journal has nothing to show.
    pub fn show(&self) -> (outcome: Result<Vec<JournalEntry>, Error>)
        ensures
            outcome.is_ok() == (self@.len() > 0),
            outcome matches Ok(entries) ==> entries_view(entries@) == self@,
            outcome matches Err(e) ==> e == Error::JournalEmpty,
    {
        if self.entries.len() == 0 {
            return Err(Error::JournalEmpty);
        }
        let mut shown: Vec<JournalEntry> = Vec::new();
        let mut i: usize = 0;
        while i < self.entries.len()
            invariant
                i <= self.entries.len(),
                shown.len() == i,
                forall|j: int| 0 <= j < i ==> (#[trigger] shown[j])@ == self.entries[j]@,
            decreases self.entries.len() - i,
        {
            shown.push(self.entries[i].clone());
            i = i + 1;
        }
        proof {
            assert(entries_view(shown@) =~= self@);
        }
        Ok(shown)
    }

    /// Begins an undo: hands out the newest operation, which is the one to
    /// take back.
    ///
    /// An empty journal has nothing to undo. An operation that cannot be
    /// taken back leaves the journal at once, and the failure is reported:
    /// the next undo will not meet it again. Any other operation stays in
    /// the journal until [`Journal::finish_undo`] is told how it went.
    pub fn begin_undo(&mut self) -> (outcome: Result<Operation, Error>)
        requires
            old(self).wf(),
        ensures
            final(self).wf(),
            final(self)@ == after_begin(old(self)@),
            outcome matches Ok(operation) ==> undo_target(old(self)@) == Ok::<
                OperationView,
                Error,
            >(operation@),
            outcome matches Err(e) ==> undo_target(old(self)@) == Err::<OperationView, Error>(e),
    {
        let n: usize = self.entries.len();
        if n == 0 {
            return Err(Error::JournalEmpty);
        }
        proof {
            assert(self@.last() == self.entries[n - 1]@);
        }
        if !is_reversible(self.entries[n - 1].operation.kind) {
            self.entries.pop();
            proof {
                assert(self@ =~= old(self)@.drop_last());
            }
            return Err(Error::Unrecoverable);
        }
        Ok(self.entries[n - 1].operation.clone())
    }

    /// Ends an undo. Where the operation was taken back, its entry leaves
    /// the journal, so that it is taken back at most once; where that
    /// failed, the entry stays.
    pub fn finish_undo(&mut self, reversed: bool)
        requires
            old(self).wf(),
        ensures
            final(self).wf(),
            final(self)@ == after_finish(old(self)@, reversed),
    {
        if reversed && self.entries.len() > 0 {
            self.entries.pop();
            proof {
                assert(self@ =~= old(self)@.drop_last());
            }
        }
    }
}

/// An undo looks at the newest entry and at no other. What can be taken
/// back is handed out and stays until the undo ends: it leaves where it was
/// taken back, and stays where that failed. What cannot be taken back
/// leaves at once.
pub proof fn lemma_undo_looks_at_the_newest(log: Seq<EntryView>, e: EntryView)
    ensures
        undo_target(log.push(e)) == (if reversible(e.operation.kind) {
            Ok::<OperationView, Error>(e.operation)
        } else {
            Err::<OperationView, Error>(Error::Unrecoverable)
        }),
        after_begin(log.push(e)) == (if reversible(e.operation.kind) {
            log.push(e)
        } else {
            log
        }),
        after_finish(log.push(e), true) == log,
        after_finish(log.push(e), false) == log.push(e),
{
    assert(log.push(e).drop_last() =~= log);
}

/// Of two operations recorded one after the other, an undo finds the second,
/// the next undo the first, and the one after that what an undo found
/// before the two were recorded.
pub proof fn lemma_undo_is_last_in_first_out(log: Seq<EntryView>, a: EntryView, b: EntryView)
    requires
        reversible(a.operation.kind),
        reversible(b.operation.kind),
    ensures
        undo_target(log.push(a).push(b)) == Ok::<OperationView, Error>(b.operation),
        after_begin(log.push(a).push(b)) == log.push(a).push(b),
        after_finish(log.push(a).push(b), true) == log.push(a),
        undo_target(log.push(a)) == Ok::<OperationView, Error>(a.operation),
        after_begin(log.push(a)) == log.push(a),
        after_finish(log.push(a), true) == log,
        log.len() == 0 ==> undo_target(log) == Err::<OperationView, Error>(Error::JournalEmpty),
{
    assert(log.push(a).push(b).drop_last() =~= log.push(a));
    assert(log.push(a).drop_last() =~= log);
}

/// An undo that finds an operation which cannot be taken back reports so
/// and removes the entry: the next undo finds what was recorded before it.
pub proof fn lemma_unrecoverable_is_consumed(log: Seq<EntryView>, e: EntryView)
    requires
        !reversible(e.operation.kind),
    ensures
        undo_target(log.push(e)) == Err::<OperationView, Error>(Error::Unrecoverable),
        after_begin(log.push(e)) == log,
        undo_target(after_begin(log.push(e))) == undo_target(log),
{
    assert(log.push(e).drop_last() =~= log);
}

} // verus!
