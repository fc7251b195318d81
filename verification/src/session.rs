//! The tool at work on a file tree in memory: operations are carried out
//! and recorded, and the newest can be undone.

use vstd::prelude::*;
use crate::action::{actions_view, refused, ActionView, FsAction, Refusal, RefusalView};
use crate::commands::{
    move_back_steps, move_steps, plan_move, plan_move_back, RelocationView,
};
use crate::copy::{between, same_elsewhere};
use crate::error::Error;
use crate::journal::{
    after_begin, after_finish, entries_view, recorded_after, recorded_before, undo_target,
    EntryView, Journal, JournalEntry,
};
use crate::operation::{Operation, OperationView};
use crate::path::{Path, PathView};
use crate::task::{plan_reversal, plan_tasks, reversal_of, tasks_of, tasks_view, Task, TaskView};
use crate::trash::{
    discarded, restorable, restore_error, restored, same_within, stage_error, stageable, staged,
    TrashStore,
};
use crate::tree::{
    allowed, effect, feasible, is_directory, is_file, lemma_one_more, rooted, run, FileTree,
    NodeView, TreeView,
};

verus! {

/// Steps taken in order up to the first that is refused: all are taken
/// where each is allowed in its turn; otherwise the tree is left as the
/// steps before the refused one have made it.
pub open spec fn taken_in_order(
    t: TreeView,
    steps: Seq<ActionView>,
    after: TreeView,
    outcome: Result<(), Refusal>,
) -> bool {
    if feasible(t, steps) {
        after == run(t, steps) && outcome.is_ok()
    } else {
        exists|k: int|
            0 <= k < steps.len() && feasible(t, #[trigger] steps.take(k)) && after == run(
                t,
                steps.take(k),
            ) && !allowed(after, steps[k]) && refused(outcome) == Some(
                RefusalView { error: Error::IoFailure, step: Some(steps[k]) },
            )
    }
}

/// What the failure of a copy says: the reason given, and the step that
/// was refused on the tree as it was left, where a step was refused; with
/// no step refused, nothing has changed.
pub open spec fn copy_failed(
    t: TreeView,
    after: TreeView,
    outcome: Result<(), Refusal>,
    error: Error,
) -> bool {
    match refused(outcome) {
        None => false,
        Some(r) => {
            &&& r.error == error
            &&& r.step matches Some(a) ==> !allowed(after, a)
            &&& r.step is None ==> after == t
        },
    }
}

/// What one task makes of the tree `t`, with the trash at `root`, and how
/// it ends.
///
/// A step is taken where it is allowed, and otherwise is refused and
/// changes nothing. Trashing stages the path and then removes it; where the
/// staging fails, the path and all below it stand untouched. Restoring
/// copies the path back from the trash; with nothing in the trash for it,
/// it fails as not trashed and changes nothing. A path that is not
/// absolute has no place in the trash and is refused as invalid. A copy that fails on the
/// way leaves what it has copied. A move looks whether its file and its
/// directory exist and takes its steps in order. A failure names the step
/// that was refused.
pub open spec fn follows(
    t: TreeView,
    root: PathView,
    task: TaskView,
    after: TreeView,
    outcome: Result<(), Refusal>,
) -> bool {
    match task {
        TaskView::Apply(a) => if allowed(t, a) {
            after == effect(t, a) && outcome.is_ok()
        } else {
            after == t && refused(outcome) == Some(
                RefusalView { error: Error::IoFailure, step: Some(a) },
            )
        },
        TaskView::Trash(p) => if stageable(t, root, p) {
            after == discarded(staged(t, root, p), p) && outcome.is_ok()
        } else {
            &&& copy_failed(t, after, outcome, stage_error(root, p))
            &&& same_within(t, after, p)
            &&& between(t, after, staged(t, root, p))
        },
        TaskView::Restore(p) => if restorable(t, root, p) {
            after == restored(t, root, p) && outcome.is_ok()
        } else {
            &&& copy_failed(t, after, outcome, restore_error(t, root, p))
            &&& same_elsewhere(t, after, p)
            &&& between(t, after, restored(t, root, p))
        },
        TaskView::Move(r) => taken_in_order(
            t,
            move_steps(r, t.contains_key(r.source), is_directory(t, r.directory)),
            after,
            outcome,
        ),
        TaskView::MoveBack(r) => taken_in_order(t, move_back_steps(r), after, outcome),
    }
}

/// The trees `trace` lead from `t` to `after` through the tasks that were
/// taken, one task from each tree to the next, with the given outcomes.
///
/// The tasks are taken in the order of the plan, up to and including the
/// first that fails: there is one outcome for each task taken, every
/// outcome but the last is a success, and where tasks are left untaken the
/// last outcome is a failure. A task that could not be planned changes
/// nothing and fails with the error of the plan.
pub open spec fn leads(
    trace: Seq<TreeView>,
    t: TreeView,
    root: PathView,
    tasks: Seq<Result<TaskView, Error>>,
    outcomes: Seq<Result<(), Refusal>>,
    after: TreeView,
) -> bool {
    &&& outcomes.len() <= tasks.len()
    &&& trace.len() == outcomes.len() + 1
    &&& trace[0] == t
    &&& trace[outcomes.len() as int] == after
    &&& forall|i: int|
        0 <= i < outcomes.len() ==> match #[trigger] tasks[i] {
            Ok(task) => follows(trace[i], root, task, trace[i + 1], outcomes[i]),
            Err(e) => trace[i + 1] == trace[i] && refused(outcomes[i]) == Some(
                RefusalView { error: e, step: None },
            ),
        }
    &&& forall|i: int| 0 <= i < outcomes.len() - 1 ==> (#[trigger] outcomes[i]).is_ok()
    &&& outcomes.len() < tasks.len() ==> outcomes.len() > 0 && outcomes.last().is_err()
}

/// Carrying out the planned tasks one after the other, each on the tree
/// that the one before it has left, and stopping at the first that fails,
/// makes `after` of `t` and ends as `outcomes` say. What the tasks before
/// the failed one have done stays; no task behind it is taken.
pub open spec fn carries(
    t: TreeView,
    root: PathView,
    tasks: Seq<Result<TaskView, Error>>,
    outcomes: Seq<Result<(), Refusal>>,
    after: TreeView,
) -> bool {
    exists|trace: Seq<TreeView>| leads(trace, t, root, tasks, outcomes, after)
}

/// Whether the next task is to be taken: there is one left of the
/// `planned` ones, and none of those taken so far has failed.
pub open spec fn unfinished(planned: nat, outcomes: Seq<Result<(), Refusal>>) -> bool {
    outcomes.len() < planned && all_ok(outcomes)
}

/// Every outcome is a success.
pub open spec fn all_ok(outcomes: Seq<Result<(), Refusal>>) -> bool {
    forall|i: int| 0 <= i < outcomes.len() ==> (#[trigger] outcomes[i]).is_ok()
}

/// The journal `log` after the operation `op` was carried out at the time
/// `now` with the given outcomes: what is recorded before its change is
/// there whatever came of it; what is recorded after its change is there
/// only where no task has failed, and so every task was taken.
pub open spec fn recorded(
    log: Seq<EntryView>,
    op: OperationView,
    now: u64,
    outcomes: Seq<Result<(), Refusal>>,
) -> Seq<EntryView> {
    recorded_after(recorded_before(log, op, now), op, now, all_ok(outcomes))
}

/// Whether the next of the `planned` tasks is to be taken, after those
/// with the given outcomes: see [`unfinished`]. The first failure ends the
/// run.
pub fn goes_on(planned: usize, outcomes: &Vec<Result<(), Refusal>>) -> (more: bool)
    ensures
        more == unfinished(planned as nat, outcomes@),
{
    outcomes.len() < planned && succeeded(outcomes)
}

/// Whether every outcome is a success.
pub fn succeeded(outcomes: &Vec<Result<(), Refusal>>) -> (yes: bool)
    ensures
        yes == all_ok(outcomes@),
{
    let mut i: usize = 0;
    while i < outcomes.len()
        invariant
            i <= outcomes.len(),
            forall|j: int| 0 <= j < i ==> (#[trigger] outcomes[j]).is_ok(),
        decreases outcomes.len() - i,
    {
        if outcomes[i].is_err() {
            return false;
        }
        i = i + 1;
    }
    true
}

/// A file tree with the journal of what was done to it, the trash, and the
/// working directory from which arguments are read.
pub struct Session {
    pub tree: FileTree,
    pub journal: Journal,
    pub store: TrashStore,
    pub cwd: Path,
}

impl Session {
    /// The tree and the journal are well formed.
    pub open spec fn wf(&self) -> bool {
        self.tree.wf() && self.journal.wf()
    }

    /// A session on the given tree, with an empty journal.
    pub fn new(tree: FileTree, cwd: Path, trash_root: Path) -> (session: Session)
        requires
            tree.wf(),
        ensures
            session.wf(),
            session.tree@ == tree@,
            session.journal@ == Seq::<EntryView>::empty(),
            session.store.root@ == trash_root@,
            session.cwd@ == cwd@,
    {
        Session { tree, journal: Journal::new(), store: TrashStore::new(trash_root), cwd }
    }

    /// Takes the steps in order up to the first that is refused.
    fn take(&mut self, steps: &Vec<FsAction>) -> (outcome: Result<(), Refusal>)
        requires
            old(self).tree.wf(),
        ensures
            final(self).tree.wf(),
            final(self).journal == old(self).journal,
            final(self).store == old(self).store,
            final(self).cwd == old(self).cwd,
            taken_in_order(old(self).tree@, actions_view(steps@), final(self).tree@, outcome),
    {
        match self.tree.apply_all(steps) {
            Ok(()) => Ok(()),
            Err(k) => {
                proof {
                    assert(actions_view(steps@)[k as int] == steps[k as int]@);
                }
                Err(Refusal::of_step(&steps[k]))
            },
        }
    }

    /// Carries out one task on the tree.
    fn carry_one(&mut self, task: &Task) -> (outcome: Result<(), Refusal>)
        requires
            old(self).tree.wf(),
        ensures
            final(self).tree.wf(),
            final(self).journal == old(self).journal,
            final(self).store == old(self).store,
            final(self).cwd == old(self).cwd,
            follows(old(self).tree@, old(self).store.root@, task@, final(self).tree@, outcome),
    {
        match task {
            Task::Apply(action) => match self.tree.apply(action) {
                Ok(()) => Ok(()),
                Err(_) => Err(Refusal::of_step(action)),
            },
            Task::Trash(path) => self.store.trash(&mut self.tree, path),
            Task::Restore(path) => self.store.restore(&mut self.tree, path),
            Task::Move(r) => {
                let source_exists = self.tree.holds(&r.source);
                let directory_exists = self.tree.is_dir(&r.directory);
                self.take(&plan_move(r, source_exists, directory_exists))
            },
            Task::MoveBack(r) => self.take(&plan_move_back(r)),
        }
    }

    /// Carries out the planned tasks one after the other and stops at the
    /// first that fails. There is one outcome for each task taken, the
    /// failed one being the last. What the tasks before it have done is not
    /// taken back, and no task behind it is taken.
    pub fn carry_out(&mut self, tasks: &Vec<Result<Task, Error>>) -> (outcomes: Vec<
        Result<(), Refusal>,
    >)
        requires
            old(self).tree.wf(),
        ensures
            final(self).tree.wf(),
            final(self).journal == old(self).journal,
            final(self).store == old(self).store,
            final(self).cwd == old(self).cwd,
            carries(
                old(self).tree@,
                old(self).store.root@,
                tasks_view(tasks@),
                outcomes@,
                final(self).tree@,
            ),
            all_ok(outcomes@) == (outcomes.len() == tasks.len() && (outcomes.len() > 0
                ==> outcomes@.last().is_ok())),
    {
        let mut outcomes: Vec<Result<(), Refusal>> = Vec::new();
        let ghost mut trace: Seq<TreeView> = seq![self.tree@];
        let ghost plan = tasks_view(tasks@);
        while goes_on(tasks.len(), &outcomes)
            invariant
                outcomes.len() <= tasks.len(),
                self.tree.wf(),
                self.journal == old(self).journal,
                self.store == old(self).store,
                self.cwd == old(self).cwd,
                plan == tasks_view(tasks@),
                trace.len() == outcomes.len() + 1,
                trace[0] == old(self).tree@,
                trace[outcomes.len() as int] == self.tree@,
                forall|j: int|
                    0 <= j < outcomes.len() ==> match #[trigger] plan[j] {
                        Ok(task) => follows(
                            trace[j],
                            old(self).store.root@,
                            task,
                            trace[j + 1],
                            outcomes[j],
                        ),
                        Err(e) => trace[j + 1] == trace[j] && refused(outcomes[j]) == Some(
                            RefusalView { error: e, step: None },
                        ),
                    },
                forall|j: int| 0 <= j < outcomes.len() - 1 ==> (#[trigger] outcomes[j]).is_ok(),
            decreases tasks.len() - outcomes.len(),
        {
            let i: usize = outcomes.len();
            let outcome = match &tasks[i] {
                Ok(task) => self.carry_one(task),
                Err(e) => Err(Refusal::plain(*e)),
            };
            outcomes.push(outcome);
            proof {
                trace = trace.push(self.tree@);
            }
        }
        proof {
            if outcomes.len() > 0 && !outcomes@.last().is_ok() {
                assert(!outcomes[outcomes.len() - 1].is_ok());
            }
            assert(leads(
                trace,
                old(self).tree@,
                old(self).store.root@,
                plan,
                outcomes@,
                self.tree@,
            ));
        }
        outcomes
    }

    /// Carries out an operation and records it in the journal.
    ///
    /// An operation that lacks the arguments its kind needs is refused and
    /// nothing is done. Otherwise its tasks are carried out in order up to
    /// the first that fails, one outcome for each task taken. What creates
    /// is recorded after all of it has succeeded; everything else is
    /// recorded before the first task begins, and so stays on record where
    /// a task fails.
    pub fn perform(&mut self, operation: Operation, now: u64) -> (outcome: Result<
        Vec<Result<(), Refusal>>,
        Error,
    >)
        requires
            old(self).wf(),
        ensures
            final(self).wf(),
            final(self).store == old(self).store,
            final(self).cwd == old(self).cwd,
            outcome.is_ok() == operation@.valid(),
            outcome matches Err(e) ==> {
                &&& e == Error::InvalidPath
                &&& final(self).tree@ == old(self).tree@
                &&& final(self).journal@ == old(self).journal@
            },
            outcome matches Ok(outcomes) ==> {
                &&& carries(
                    old(self).tree@,
                    old(self).store.root@,
                    tasks_of(operation@, old(self).cwd@),
                    outcomes@,
                    final(self).tree@,
                )
                &&& final(self).journal@ == recorded(
                    old(self).journal@,
                    operation@,
                    now,
                    outcomes@,
                )
            },
    {
        if !operation.is_valid() {
            return Err(Error::InvalidPath);
        }
        let tasks = plan_tasks(&operation, &self.cwd);
        self.journal.record_before(&operation, now);
        let outcomes = self.carry_out(&tasks);
        self.journal.record_after(&operation, now, succeeded(&outcomes));
        Ok(outcomes)
    }

    /// Undoes the newest operation of the journal.
    ///
    /// An empty journal has nothing to undo. An operation that cannot be
    /// taken back is reported as such and leaves the journal; the tree
    /// stays as it is. Otherwise the tasks that take the operation back are
    /// carried out in order up to the first that fails, one outcome for
    /// each task taken; the entry leaves the journal where all of them have
    /// succeeded, and stays where one has failed. No other entry is looked
    /// at or changed.
    pub fn undo(&mut self) -> (outcome: Result<Vec<Result<(), Refusal>>, Error>)
        requires
            old(self).wf(),
        ensures
            final(self).wf(),
            final(self).store == old(self).store,
            final(self).cwd == old(self).cwd,
            match undo_target(old(self).journal@) {
                Err(e) => {
                    &&& outcome matches Err(reason)
                    &&& reason == e
                    &&& final(self).tree@ == old(self).tree@
                    &&& final(self).journal@ == after_begin(old(self).journal@)
                },
                Ok(operation) => {
                    &&& outcome matches Ok(outcomes)
                    &&& carries(
                        old(self).tree@,
                        old(self).store.root@,
                        reversal_of(operation, old(self).cwd@),
                        outcomes@,
                        final(self).tree@,
                    )
                    &&& final(self).journal@ == after_finish(
                        old(self).journal@,
                        all_ok(outcomes@),
                    )
                },
            },
    {
        let operation = match self.journal.begin_undo() {
            Ok(operation) => operation,
            Err(e) => {
                return Err(e);
            },
        };
        let tasks = plan_reversal(&operation, &self.cwd);
        let outcomes = self.carry_out(&tasks);
        self.journal.finish_undo(succeeded(&outcomes));
        Ok(outcomes)
    }

    /// The entries of the journal, oldest first. Nothing changes. An empty
    /// journal has nothing to show.
    pub fn show(&self) -> (outcome: Result<Vec<JournalEntry>, Error>)
        ensures
            outcome.is_ok() == (self.journal@.len() > 0),
            outcome matches Ok(entries) ==> entries_view(entries@) == self.journal@,
            outcome matches Err(e) ==> e == Error::JournalEmpty,
    {
        self.journal.show()
    }
}

/// A file that was moved to a place where nothing stood, into a directory
/// that was there, can be moved back, and the tree is then as it was.
pub proof fn lemma_move_back(t: TreeView, r: RelocationView)
    requires
        rooted(t),
        is_file(t, r.source),
        is_directory(t, r.directory),
        r.destination.names.len() > 0,
        r.destination.parent() == r.directory,
        !t.contains_key(r.destination),
    ensures
        feasible(t, move_steps(r, true, true) + move_back_steps(r)),
        run(t, move_steps(r, true, true) + move_back_steps(r)) == t,
{
    let a1 = ActionView::CreateFile(r.destination);
    let a2 = ActionView::CopyBytes(r.source, r.destination);
    let a3 = ActionView::RemoveFile(r.source);
    let a4 = ActionView::CopyBytes(r.destination, r.source);
    let a5 = ActionView::RemoveFile(r.destination);
    let none = Seq::<ActionView>::empty();
    let s1 = none.push(a1);
    let s2 = s1.push(a2);
    let s3 = s2.push(a3);
    let s4 = s3.push(a4);
    let s5 = s4.push(a5);
    assert(s5 =~= move_steps(r, true, true) + move_back_steps(r));
    lemma_one_more(t, none, a1);
    lemma_one_more(t, s1, a2);
    lemma_one_more(t, s2, a3);
    lemma_one_more(t, s3, a4);
    lemma_one_more(t, s4, a5);
    assert(r.source.names.len() > 0 && is_directory(t, r.source.parent()));
    let t1 = t.insert(r.destination, NodeView::File(Seq::empty()));
    let t2 = t1.insert(r.destination, t[r.source]);
    let t3 = t2.remove(r.source);
    let t4 = t3.insert(r.source, t[r.source]);
    let t5 = t4.remove(r.destination);
    assert(run(t, s1) == t1);
    assert(run(t, s2) == t2);
    assert(run(t, s3) == t3);
    assert(run(t, s4) == t4);
    assert(t5 =~= t);
}

} // verus!
