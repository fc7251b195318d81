//! What an operation asks for, path by path, and what takes it back. Each
//! argument of an operation gives one task; the tasks are carried out one
//! by one, in order, and the first that fails ends the run.

use vstd::prelude::*;
use crate::action::{anchored_action, planned, ActionView, FsAction};
use crate::commands::{
    create_files, creation, delete_files, deletion, raised, relocate, relocation, rename_back,
    rename_file, renaming, renaming_back, Relocation, RelocationView,
};
use crate::number::small_number;
use crate::text::{begins_with, names_of, separator, texts};
use crate::error::Error;
use crate::in_directory::{
    create_in_dir, creation_in, delete_files_dir, deletion_in, entries_of,
};
use crate::operation::{Operation, OperationKind, OperationView};
use crate::path::{anchored, resolve, resolved, working_view, Path, PathView, TargetView};

verus! {

/// One task on the file system.
#[derive(Debug, PartialEq, Eq)]
pub enum Task {
    /// Take one step.
    Apply(FsAction),
    /// Stage the path in the trash and then remove it.
    Trash(Path),
    /// Bring the path back from the trash.
    Restore(Path),
    /// Move a file to its new place.
    Move(Relocation),
    /// Move a file back to where it was.
    MoveBack(Relocation),
}

/// What a [`Task`] stands for.
pub enum TaskView {
    Apply(ActionView),
    Trash(PathView),
    Restore(PathView),
    Move(RelocationView),
    MoveBack(RelocationView),
}

impl View for Task {
    type V = TaskView;

    open spec fn view(&self) -> TaskView {
        match self {
            Task::Apply(a) => TaskView::Apply(a@),
            Task::Trash(p) => TaskView::Trash(p@),
            Task::Restore(p) => TaskView::Restore(p@),
            Task::Move(r) => TaskView::Move(r@),
            Task::MoveBack(r) => TaskView::MoveBack(r@),
        }
    }
}

/// What a planned task stands for: the task, or the reason why there is
/// none.
pub open spec fn task_view(task: Result<Task, Error>) -> Result<TaskView, Error> {
    match task {
        Ok(t) => Ok(t@),
        Err(e) => Err(e),
    }
}

/// The views of the planned tasks in `tasks`, in order.
pub open spec fn tasks_view(tasks: Seq<Result<Task, Error>>) -> Seq<Result<TaskView, Error>> {
    Seq::new(tasks.len(), |i: int| task_view(tasks[i]))
}

/// What the argument names as it is written, before it is anchored: the
/// working directory is the path without names, so that a `.` in front
/// leads nowhere by itself.
pub open spec fn written(raw: Seq<char>) -> Result<TargetView, Error> {
    resolved(raw, working_view())
}

/// Where the arguments of a move send which file, seen from the top of the
/// tree: the file and a directory that is named are anchored at the working
/// directory `cwd`; a directory that is given by levels lies that many
/// levels above `cwd` itself.
pub open spec fn settled_relocation(args: Seq<Seq<char>>, cwd: PathView) -> Result<
    RelocationView,
    Error,
> {
    match relocation(args, working_view()) {
        Err(e) => Err(e),
        Ok(r) => {
            let directory = match small_number(args[1]) {
                Some(levels) => raised(cwd, levels as int),
                None => anchored(r.directory, cwd),
            };
            Ok(
                RelocationView {
                    source: anchored(r.source, cwd),
                    directory,
                    destination: directory.child(r.source.names.last()),
                    by_levels: r.by_levels,
                },
            )
        },
    }
}

/// The task that takes the planned step, with its paths anchored at the
/// working directory `cwd`.
pub open spec fn apply_task(step: Result<ActionView, Error>, cwd: PathView) -> Result<
    TaskView,
    Error,
> {
    match step {
        Ok(a) => Ok(TaskView::Apply(anchored_action(a, cwd))),
        Err(e) => Err(e),
    }
}

/// The task that throws away what `target` names, anchored at `cwd`.
pub open spec fn trash_task(target: Result<TargetView, Error>, cwd: PathView) -> Result<
    TaskView,
    Error,
> {
    match target {
        Ok(t) => Ok(TaskView::Trash(anchored(t.path, cwd))),
        Err(e) => Err(e),
    }
}

/// The task that brings back what `target` names, anchored at `cwd`.
pub open spec fn restore_task(target: Result<TargetView, Error>, cwd: PathView) -> Result<
    TaskView,
    Error,
> {
    match target {
        Ok(t) => Ok(TaskView::Restore(anchored(t.path, cwd))),
        Err(e) => Err(e),
    }
}

/// The task that moves a file as `r` says.
pub open spec fn move_task(r: Result<RelocationView, Error>) -> Result<TaskView, Error> {
    match r {
        Ok(r) => Ok(TaskView::Move(r)),
        Err(e) => Err(e),
    }
}

/// The task that moves a file back from where `r` sent it.
pub open spec fn move_back_task(r: Result<RelocationView, Error>) -> Result<TaskView, Error> {
    match r {
        Ok(r) => Ok(TaskView::MoveBack(r)),
        Err(e) => Err(e),
    }
}

/// The tasks of the operation `op` for a process whose working directory is
/// `cwd`: one for each path that the arguments name, in their order; a move
/// is one task.
///
/// Each argument is read as it is written, and the path it names is then
/// anchored at `cwd`, once: an absolute path stays as it is, and any other
/// leads on from `cwd`, with or without a `.` in front.
pub open spec fn tasks_of(op: OperationView, cwd: PathView) -> Seq<Result<TaskView, Error>> {
    match op.kind {
        OperationKind::Create => Seq::new(
            op.args.len(),
            |i: int| apply_task(creation(written(op.args[i])), cwd),
        ),
        OperationKind::Delete => Seq::new(
            op.args.len(),
            |i: int| apply_task(deletion(written(op.args[i])), cwd),
        ),
        OperationKind::CreateIn => Seq::new(
            entries_of(op.args),
            |i: int| apply_task(creation_in(written(op.args[0]), op.args[i + 1]), cwd),
        ),
        OperationKind::DeleteIn => Seq::new(
            entries_of(op.args),
            |i: int| apply_task(deletion_in(written(op.args[0]), op.args[i + 1]), cwd),
        ),
        OperationKind::Trash => Seq::new(
            op.args.len(),
            |i: int| trash_task(written(op.args[i]), cwd),
        ),
        OperationKind::Move => seq![move_task(settled_relocation(op.args, cwd))],
        OperationKind::Rename => seq![apply_task(renaming(op.args, working_view()), cwd)],
    }
}

/// The tasks that take the operation `op` back, for a process whose working
/// directory is `cwd`. What was created is removed, the last created first;
/// what was thrown away is brought back from the trash; what was moved is
/// moved back; what was renamed gets its old name. Nothing takes back what
/// was deleted for good. The paths are those of [`tasks_of`].
pub open spec fn reversal_of(op: OperationView, cwd: PathView) -> Seq<Result<TaskView, Error>> {
    match op.kind {
        OperationKind::Create => Seq::new(
            op.args.len(),
            |i: int| apply_task(deletion(written(op.args[op.args.len() - 1 - i])), cwd),
        ),
        OperationKind::CreateIn => Seq::new(
            entries_of(op.args),
            |i: int|
                apply_task(
                    deletion_in(written(op.args[0]), op.args[op.args.len() - 1 - i]),
                    cwd,
                ),
        ),
        OperationKind::Trash => Seq::new(
            op.args.len(),
            |i: int| restore_task(written(op.args[i]), cwd),
        ),
        OperationKind::Move => seq![move_back_task(settled_relocation(op.args, cwd))],
        OperationKind::Rename => seq![apply_task(renaming_back(op.args, working_view()), cwd)],
        OperationKind::Delete | OperationKind::DeleteIn => Seq::empty(),
    }
}

/// For a working directory that is absolute, the path of a task is the
/// path that the argument resolves to: anchoring it changes nothing where
/// the argument was anchored by its `.` in front, and anchors it where it
/// was taken as written.
pub proof fn lemma_anchored_once(raw: Seq<char>, cwd: PathView)
    requires
        cwd.absolute,
    ensures
        match resolved(raw, cwd) {
            Ok(t) => written(raw) matches Ok(w) && w.directory == t.directory && anchored(
                w.path,
                cwd,
            ) == anchored(t.path, cwd),
            Err(e) => written(raw) == Err::<TargetView, Error>(e),
        },
{
    if names_of(raw).len() > 0 {
        let w = written(raw).unwrap();
        if begins_with(raw, '.') {
            assert(raw[0] != separator());
            assert(w.path.names =~= names_of(raw));
        }
    }
}

/// Reads the arguments of a move: see [`settled_relocation`].
pub fn settle_relocation(args: &Vec<String>, cwd: &Path) -> (outcome: Result<Relocation, Error>)
    ensures
        match outcome {
            Ok(r) => settled_relocation(texts(args@), cwd@) == Ok::<RelocationView, Error>(r@),
            Err(e) => settled_relocation(texts(args@), cwd@) == Err::<RelocationView, Error>(e),
        },
{
    let here = Path::working_directory();
    let r = match relocate(args, &here) {
        Ok(r) => r,
        Err(e) => {
            return Err(e);
        },
    };
    let ghost given = texts(args@);
    let ghost name = r@.source.names.last();
    proof {
        assert(relocation(given, working_view()) == Ok::<RelocationView, Error>(r@));
        assert(r@.by_levels == small_number(given[1]).is_some());
        assert(r@.destination == r@.directory.child(name));
        assert(r@.destination.names.last() == name);
        assert(r.destination.names.len() == r@.destination.names.len());
    }
    let directory = if r.by_levels {
        match relocate(args, cwd) {
            Ok(up) => up.directory,
            Err(e) => {
                return Err(e);
            },
        }
    } else {
        r.directory.anchor(cwd)
    };
    let last: usize = r.destination.names.len() - 1;
    let destination = directory.child(r.destination.names[last].as_str());
    proof {
        assert(r.destination.names[last as int]@ == r@.destination.names[last as int]);
    }
    Ok(
        Relocation {
            source: r.source.anchor(cwd),
            directory,
            destination,
            by_levels: r.by_levels,
        },
    )
}

/// Makes a task of each planned step, in order.
fn as_tasks(plan: Vec<Result<FsAction, Error>>, cwd: &Path) -> (tasks: Vec<Result<Task, Error>>)
    ensures
        tasks.len() == plan.len(),
        forall|i: int|
            0 <= i < tasks.len() ==> task_view(#[trigger] tasks[i]) == apply_task(
                planned(plan[i]),
                cwd@,
            ),
{
    let mut tasks: Vec<Result<Task, Error>> = Vec::new();
    let mut i: usize = 0;
    while i < plan.len()
        invariant
            i <= plan.len(),
            tasks.len() == i,
            forall|j: int|
                0 <= j < tasks.len() ==> task_view(#[trigger] tasks[j]) == apply_task(
                    planned(plan[j]),
                    cwd@,
                ),
        decreases plan.len() - i,
    {
        let task = match &plan[i] {
            Ok(action) => Ok(Task::Apply(action.anchor(cwd))),
            Err(e) => Err(*e),
        };
        tasks.push(task);
        i = i + 1;
    }
    tasks
}

/// The tasks in the opposite order.
fn turned(tasks: Vec<Result<Task, Error>>) -> (back: Vec<Result<Task, Error>>)
    ensures
        back.len() == tasks.len(),
        forall|i: int| 0 <= i < back.len() ==> #[trigger] back[i] == tasks[tasks.len() - 1 - i],
{
    let mut tasks = tasks;
    let ghost all = tasks@;
    let mut back: Vec<Result<Task, Error>> = Vec::new();
    while tasks.len() > 0
        invariant
            tasks.len() + back.len() == all.len(),
            tasks@ == all.take(tasks.len() as int),
            forall|i: int| 0 <= i < back.len() ==> #[trigger] back[i] == all[all.len() - 1 - i],
        decreases tasks.len(),
    {
        match tasks.pop() {
            Some(task) => {
                back.push(task);
            },
            None => {},
        }
        proof {
            assert(tasks@ =~= all.take(tasks.len() as int));
        }
    }
    back
}

/// One task for each argument, made of what the argument names.
fn for_each_path(args: &Vec<String>, cwd: &Path, restore: bool) -> (tasks: Vec<
    Result<Task, Error>,
>)
    ensures
        tasks.len() == args.len(),
        forall|i: int|
            0 <= i < tasks.len() ==> task_view(#[trigger] tasks[i]) == (if restore {
                restore_task(written(args[i]@), cwd@)
            } else {
                trash_task(written(args[i]@), cwd@)
            }),
{
    let here = Path::working_directory();
    let mut tasks: Vec<Result<Task, Error>> = Vec::new();
    let mut i: usize = 0;
    while i < args.len()
        invariant
            i <= args.len(),
            tasks.len() == i,
            forall|j: int|
                0 <= j < tasks.len() ==> task_view(#[trigger] tasks[j]) == (if restore {
                    restore_task(written(args[j]@), cwd@)
                } else {
                    trash_task(written(args[j]@), cwd@)
                }),
                here@ == working_view(),
        decreases args.len() - i,
    {
        let task = match resolve(args[i].as_str(), &here) {
            Ok(target) => {
                let path = target.path.anchor(cwd);
                if restore {
                    Ok(Task::Restore(path))
                } else {
                    Ok(Task::Trash(path))
                }
            },
            Err(e) => Err(e),
        };
        tasks.push(task);
        i = i + 1;
    }
    tasks
}

/// Plans the operation: see [`tasks_of`].
pub fn plan_tasks(operation: &Operation, cwd: &Path) -> (tasks: Vec<Result<Task, Error>>)
    ensures
        tasks_view(tasks@) == tasks_of(operation@, cwd@),
{
    let args = &operation.args;
    let here = Path::working_directory();
    let tasks = match operation.kind {
        OperationKind::Create => as_tasks(create_files(args, &here), cwd),
        OperationKind::Delete => as_tasks(delete_files(args, &here), cwd),
        OperationKind::CreateIn => as_tasks(create_in_dir(args, &here), cwd),
        OperationKind::DeleteIn => as_tasks(delete_files_dir(args, &here), cwd),
        OperationKind::Trash => for_each_path(args, cwd, false),
        OperationKind::Move => {
            let mut tasks: Vec<Result<Task, Error>> = Vec::new();
            tasks.push(
                match settle_relocation(args, cwd) {
                    Ok(r) => Ok(Task::Move(r)),
                    Err(e) => Err(e),
                },
            );
            tasks
        },
        OperationKind::Rename => {
            let mut plan: Vec<Result<FsAction, Error>> = Vec::new();
            plan.push(rename_file(args, &here));
            as_tasks(plan, cwd)
        },
    };
    proof {
        assert(tasks_view(tasks@) =~= tasks_of(operation@, cwd@));
    }
    tasks
}

/// Plans what takes the operation back: see [`reversal_of`].
pub fn plan_reversal(operation: &Operation, cwd: &Path) -> (tasks: Vec<Result<Task, Error>>)
    ensures
        tasks_view(tasks@) == reversal_of(operation@, cwd@),
{
    let args = &operation.args;
    let here = Path::working_directory();
    let tasks = match operation.kind {
        OperationKind::Create => turned(as_tasks(delete_files(args, &here), cwd)),
        OperationKind::CreateIn => turned(as_tasks(delete_files_dir(args, &here), cwd)),
        OperationKind::Trash => for_each_path(args, cwd, true),
        OperationKind::Move => {
            let mut tasks: Vec<Result<Task, Error>> = Vec::new();
            tasks.push(
                match settle_relocation(args, cwd) {
                    Ok(r) => Ok(Task::MoveBack(r)),
                    Err(e) => Err(e),
                },
            );
            tasks
        },
        OperationKind::Rename => {
            let mut plan: Vec<Result<FsAction, Error>> = Vec::new();
            plan.push(rename_back(args, &here));
            as_tasks(plan, cwd)
        },
        OperationKind::Delete | OperationKind::DeleteIn => Vec::new(),
    };
    proof {
        assert(tasks_view(tasks@) =~= reversal_of(operation@, cwd@));
    }
    tasks
}

} // verus!
