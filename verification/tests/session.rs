use punch::action::{FsAction, Refusal};
use punch::error::Error;
use punch::operation::{Operation, OperationKind};
use punch::path::Path;
use punch::session::{goes_on, succeeded, Session};
use punch::task::{plan_reversal, plan_tasks, settle_relocation, Task};
use punch::tree::FileTree;

fn strings(items: &[&str]) -> Vec<String> {
    items.iter().map(|s| s.to_string()).collect()
}

fn p(text: &str) -> Path {
    Path::from_text(text)
}

fn op(kind: OperationKind, args: &[&str]) -> Operation {
    Operation::new(kind, strings(args))
}

fn reasons(outcomes: Vec<Result<(), Refusal>>) -> Vec<Result<(), Error>> {
    outcomes.into_iter().map(|o| o.map_err(|r| r.error)).collect()
}

fn session_at(cwd: &str) -> Session {
    let mut tree = FileTree::new();
    let cwd = p(cwd);
    let trash = p("/home/user/.punch/trash");
    tree.apply(&FsAction::CreateDirectory(cwd.clone())).unwrap();
    tree.apply(&FsAction::CreateDirectory(trash.clone())).unwrap();
    Session::new(tree, cwd, trash)
}

fn shown(tasks: &[Result<Task, Error>]) -> Vec<String> {
    tasks
        .iter()
        .map(|t| match t {
            Ok(Task::Apply(a)) => a.describe(),
            Ok(Task::Trash(p)) => format!("trash {}", p.render()),
            Ok(Task::Restore(p)) => format!("restore {}", p.render()),
            Ok(Task::Move(r)) => format!("move {} to {}", r.source.render(), r.destination.render()),
            Ok(Task::MoveBack(r)) => {
                format!("move back {} to {}", r.destination.render(), r.source.render())
            }
            Err(e) => format!("{:?}", e),
        })
        .collect()
}

#[test]
fn creating_a_file_and_undoing_removes_it() {
    let mut s = session_at("/home/user/work");
    let notes = p("/home/user/work/notes.txt");
    let done = reasons(s.perform(op(OperationKind::Create, &["notes.txt"]), 1).unwrap());
    assert_eq!(done, vec![Ok(())]);
    assert!(s.tree.holds(&notes));
    assert_eq!(s.journal.len(), 1);
    let undone = reasons(s.undo().unwrap());
    assert_eq!(undone, vec![Ok(())]);
    assert!(!s.tree.holds(&notes));
    assert_eq!(s.journal.len(), 0);
    assert_eq!(s.undo().map(reasons), Err(Error::JournalEmpty));
}

#[test]
fn trashing_a_file_and_undoing_restores_it_and_keeps_the_mirror() {
    let mut s = session_at("/home/user/work");
    let draft = p("/home/user/work/draft.md");
    let mirror = p("/home/user/.punch/trash/home/user/work/draft.md");
    s.tree.write(&draft, b"first draft".to_vec()).unwrap();
    let done = reasons(s.perform(op(OperationKind::Trash, &["draft.md"]), 7).unwrap());
    assert_eq!(done, vec![Ok(())]);
    assert!(!s.tree.holds(&draft));
    assert_eq!(s.tree.read(&mirror), Some(b"first draft".to_vec()));
    let undone = reasons(s.undo().unwrap());
    assert_eq!(undone, vec![Ok(())]);
    assert_eq!(s.tree.read(&draft), Some(b"first draft".to_vec()));
    assert_eq!(s.tree.read(&mirror), Some(b"first draft".to_vec()));
    assert!(s.journal.is_empty());
}

#[test]
fn creating_sub_with_a_separator_makes_a_directory() {
    let mut s = session_at("/w");
    assert_eq!(s.perform(op(OperationKind::Create, &["sub/"]), 1).map(reasons), Ok(vec![Ok(())]));
    assert!(s.tree.is_dir(&p("/w/sub")));
    assert_eq!(s.tree.read(&p("/w/sub")), None);
    assert_eq!(s.undo().map(reasons), Ok(vec![Ok(())]));
    assert!(!s.tree.holds(&p("/w/sub")));
}

#[test]
fn undo_reverses_the_newest_operation_only() {
    let mut s = session_at("/w");
    s.perform(op(OperationKind::Create, &["a.txt"]), 1).unwrap();
    s.perform(op(OperationKind::Create, &["b.txt"]), 2).unwrap();
    assert_eq!(s.undo().map(reasons), Ok(vec![Ok(())]));
    assert!(s.tree.holds(&p("/w/a.txt")));
    assert!(!s.tree.holds(&p("/w/b.txt")));
    assert_eq!(s.undo().map(reasons), Ok(vec![Ok(())]));
    assert!(!s.tree.holds(&p("/w/a.txt")));
    assert_eq!(s.undo().map(reasons), Err(Error::JournalEmpty));
}

#[test]
fn a_permanent_delete_cannot_be_undone_and_is_not_retried() {
    let mut s = session_at("/w");
    s.perform(op(OperationKind::Create, &["keep.txt", "gone.txt"]), 1).unwrap();
    assert_eq!(s.perform(op(OperationKind::Delete, &["gone.txt"]), 2).map(reasons), Ok(vec![Ok(())]));
    assert_eq!(s.journal.len(), 2);
    assert_eq!(s.undo().map(reasons), Err(Error::Unrecoverable));
    assert_eq!(s.journal.len(), 1);
    assert!(!s.tree.holds(&p("/w/gone.txt")));
    assert_eq!(s.undo().map(reasons), Ok(vec![Err(Error::IoFailure)]));
    assert!(s.tree.holds(&p("/w/keep.txt")));
    assert_eq!(s.journal.len(), 1);
}

#[test]
fn deleting_inside_a_directory_cannot_be_undone_either() {
    let mut s = session_at("/w");
    s.perform(op(OperationKind::Create, &["box/"]), 1).unwrap();
    assert_eq!(s.perform(op(OperationKind::CreateIn, &["box", "a", "b/"]), 2).map(reasons), Ok(vec![Ok(()), Ok(())]));
    assert_eq!(s.perform(op(OperationKind::DeleteIn, &["box", "a"]), 3).map(reasons), Ok(vec![Ok(())]));
    assert_eq!(s.undo().map(reasons), Err(Error::Unrecoverable));
    assert_eq!(s.journal.len(), 2);
    assert_eq!(s.undo().map(reasons), Ok(vec![Ok(()), Err(Error::IoFailure)]));
    assert!(!s.tree.holds(&p("/w/box/b")));
}

#[test]
fn a_creation_that_failed_is_not_recorded() {
    let mut s = session_at("/w");
    let done = s.perform(op(OperationKind::Create, &["ok.txt", "missing/dir/file.txt"]), 1).unwrap();
    assert_eq!(
        done,
        vec![Ok(()), Err(Refusal::of_step(&FsAction::CreateFile(p("/w/missing/dir/file.txt"))))]
    );
    assert!(s.tree.holds(&p("/w/ok.txt")));
    assert!(s.journal.is_empty());
    let done = s.perform(op(OperationKind::Create, &["", "x"]), 1).unwrap();
    assert_eq!(done, vec![Err(Refusal::plain(Error::InvalidPath))]);
    assert!(!s.tree.holds(&p("/w/x")));
    assert!(s.journal.is_empty());
}

#[test]
fn a_destructive_operation_is_recorded_even_where_it_fails() {
    let mut s = session_at("/w");
    let done = reasons(s.perform(op(OperationKind::Trash, &["nothing-here"]), 1).unwrap());
    assert_eq!(done, vec![Err(Error::IoFailure)]);
    assert_eq!(s.journal.len(), 1);
    assert_eq!(s.undo().map(reasons), Ok(vec![Err(Error::NotTrashed)]));
    assert_eq!(s.journal.len(), 1);
    let shown = s.show().unwrap();
    assert_eq!(shown[0].operation, op(OperationKind::Trash, &["nothing-here"]));
    assert_eq!(shown[0].timestamp, 1);
}

#[test]
fn an_operation_without_its_arguments_is_refused() {
    let mut s = session_at("/w");
    assert_eq!(s.perform(op(OperationKind::Trash, &[]), 1).map(reasons), Err(Error::InvalidPath));
    assert_eq!(s.perform(op(OperationKind::DeleteIn, &["dir"]), 1).map(reasons), Err(Error::InvalidPath));
    assert_eq!(s.perform(op(OperationKind::Rename, &["a"]), 1).map(reasons), Err(Error::InvalidPath));
    assert!(s.journal.is_empty());
    assert_eq!(s.show(), Err(Error::JournalEmpty));
}

#[test]
fn trashing_stops_at_the_first_path_that_fails() {
    let mut s = session_at("/w");
    s.perform(op(OperationKind::Create, &["a", "d/", "c"]), 1).unwrap();
    s.tree.write(&p("/w/d/inner"), b"x".to_vec()).unwrap();
    let done = reasons(s.perform(op(OperationKind::Trash, &["a", "missing", "d/", "c"]), 2).unwrap());
    assert_eq!(done, vec![Ok(()), Err(Error::IoFailure)]);
    assert!(!s.tree.holds(&p("/w/a")));
    assert_eq!(s.tree.read(&p("/w/d/inner")), Some(b"x".to_vec()));
    assert!(s.tree.holds(&p("/w/c")));
    assert!(!s.tree.holds(&p("/home/user/.punch/trash/w/d")));
    assert_eq!(s.journal.len(), 2);
    let back = reasons(s.undo().unwrap());
    assert_eq!(back, vec![Ok(()), Err(Error::NotTrashed)]);
    assert!(s.tree.holds(&p("/w/a")));
    assert_eq!(s.journal.len(), 2);
}

#[test]
fn all_paths_are_trashed_and_brought_back_where_none_fails() {
    let mut s = session_at("/w");
    s.perform(op(OperationKind::Create, &["a", "d/", "c"]), 1).unwrap();
    s.tree.write(&p("/w/d/inner"), b"x".to_vec()).unwrap();
    let done = reasons(s.perform(op(OperationKind::Trash, &["a", "d/", "c"]), 2).unwrap());
    assert_eq!(done, vec![Ok(()), Ok(()), Ok(())]);
    assert!(!s.tree.holds(&p("/w/a")));
    assert!(!s.tree.holds(&p("/w/d")));
    assert!(!s.tree.holds(&p("/w/c")));
    assert_eq!(reasons(s.undo().unwrap()), vec![Ok(()), Ok(()), Ok(())]);
    assert!(s.tree.holds(&p("/w/a")));
    assert!(s.tree.holds(&p("/w/c")));
    assert_eq!(s.tree.read(&p("/w/d/inner")), Some(b"x".to_vec()));
    assert_eq!(s.journal.len(), 1);
}

#[test]
fn creating_in_a_directory_stops_at_the_first_entry_that_fails() {
    let mut s = session_at("/w");
    s.perform(op(OperationKind::Create, &["d/"]), 1).unwrap();
    let done = s.perform(op(OperationKind::CreateIn, &["d", "first", "x/a", "b"]), 2).unwrap();
    assert_eq!(
        done,
        vec![Ok(()), Err(Refusal::of_step(&FsAction::CreateFile(p("/w/d/x/a"))))]
    );
    assert!(s.tree.holds(&p("/w/d/first")));
    assert!(!s.tree.holds(&p("/w/d/x")));
    assert!(!s.tree.holds(&p("/w/d/b")));
    assert_eq!(s.journal.len(), 1);
}

#[test]
fn deleting_in_a_directory_stops_at_the_first_entry_that_fails() {
    let mut s = session_at("/w");
    s.perform(op(OperationKind::Create, &["d/", "d/first", "d/b"]), 1).unwrap();
    let done = s.perform(op(OperationKind::DeleteIn, &["d", "first", "x", "b"]), 2).unwrap();
    assert_eq!(
        done,
        vec![Ok(()), Err(Refusal::of_step(&FsAction::RemoveFile(p("/w/d/x"))))]
    );
    assert!(!s.tree.holds(&p("/w/d/first")));
    assert!(s.tree.holds(&p("/w/d/b")));
    assert_eq!(s.journal.len(), 2);
}

#[test]
fn the_next_task_is_taken_while_none_has_failed() {
    let failed = Err(Refusal::plain(Error::IoFailure));
    assert!(goes_on(2, &vec![]));
    assert!(goes_on(2, &vec![Ok(())]));
    assert!(!goes_on(2, &vec![Ok(()), Ok(())]));
    assert!(!goes_on(2, &vec![failed]));
    assert!(!goes_on(0, &vec![]));
    assert!(!goes_on(3, &vec![Ok(()), Err(Refusal::plain(Error::InvalidPath))]));
}

#[test]
fn paths_are_anchored_once_at_a_working_directory_that_is_relative() {
    let cwd = p("work");
    assert_eq!(
        shown(&plan_tasks(&op(OperationKind::Create, &["./x", "y", "/z", "sub/"]), &cwd)),
        vec![
            "create file work/x",
            "create file work/y",
            "create file /z",
            "create directory work/sub",
        ]
    );
    assert_eq!(
        shown(&plan_tasks(&op(OperationKind::DeleteIn, &["./box", "a"]), &cwd)),
        vec!["remove file work/box/a"]
    );
    assert_eq!(
        shown(&plan_tasks(&op(OperationKind::Rename, &["./a", "b"]), &cwd)),
        vec!["rename work/a to work/b"]
    );
    assert_eq!(
        shown(&plan_reversal(&op(OperationKind::Trash, &["./a"]), &cwd)),
        vec!["restore work/a"]
    );
    let deep = p("a/b/c");
    assert_eq!(
        shown(&plan_tasks(&op(OperationKind::Move, &["./f", "1"]), &deep)),
        vec!["move a/b/c/f to a/b/f"]
    );
    assert_eq!(
        shown(&plan_tasks(&op(OperationKind::Move, &["f", "./dir"]), &deep)),
        vec!["move a/b/c/f to a/b/c/dir/f"]
    );
    assert_eq!(
        settle_relocation(&strings(&["./f", "/abs"]), &deep).unwrap().destination.render(),
        "/abs/f"
    );
    assert_eq!(settle_relocation(&strings(&["f"]), &deep), Err(Error::InvalidPath));
}

#[test]
fn a_session_in_a_relative_working_directory_cannot_trash() {
    let mut tree = FileTree::new();
    tree.apply(&FsAction::CreateDirectory(p("work"))).unwrap();
    tree.write(&p("work/f"), b"1".to_vec()).unwrap();
    let mut s = Session::new(tree, p("work"), p("/trash"));
    let done = s.perform(op(OperationKind::Trash, &["./f"]), 1).unwrap();
    assert_eq!(done, vec![Err(Refusal::plain(Error::InvalidPath))]);
    assert_eq!(s.tree.read(&p("work/f")), Some(b"1".to_vec()));
    assert_eq!(s.perform(op(OperationKind::Create, &["./g"]), 2).map(reasons), Ok(vec![Ok(())]));
    assert!(s.tree.holds(&p("work/g")));
}

#[test]
fn a_move_is_taken_back_by_copying_and_removing() {
    let mut s = session_at("/w");
    s.tree.write(&p("/w/report.txt"), b"numbers".to_vec()).unwrap();
    let done = reasons(s.perform(op(OperationKind::Move, &["report.txt", "archive"]), 1).unwrap());
    assert_eq!(done, vec![Ok(())]);
    assert!(!s.tree.holds(&p("/w/report.txt")));
    assert_eq!(s.tree.read(&p("/w/archive/report.txt")), Some(b"numbers".to_vec()));
    assert_eq!(s.undo().map(reasons), Ok(vec![Ok(())]));
    assert_eq!(s.tree.read(&p("/w/report.txt")), Some(b"numbers".to_vec()));
    assert!(!s.tree.holds(&p("/w/archive/report.txt")));
    assert!(s.tree.is_dir(&p("/w/archive")));
    assert!(s.journal.is_empty());
}

#[test]
fn a_move_by_levels_lands_above_the_working_directory() {
    let mut s = session_at("/home/user/work");
    s.tree.write(&p("/home/user/work/f"), b"1".to_vec()).unwrap();
    assert_eq!(s.perform(op(OperationKind::Move, &["f", "2"]), 1).map(reasons), Ok(vec![Ok(())]));
    assert_eq!(s.tree.read(&p("/home/f")), Some(b"1".to_vec()));
    assert!(!s.tree.holds(&p("/home/user/work/f")));
    assert_eq!(s.undo().map(reasons), Ok(vec![Ok(())]));
    assert_eq!(s.tree.read(&p("/home/user/work/f")), Some(b"1".to_vec()));
}

#[test]
fn a_renaming_is_recorded_and_taken_back() {
    let mut s = session_at("/w");
    s.perform(op(OperationKind::Create, &["old/"]), 1).unwrap();
    s.tree.write(&p("/w/old/f"), b"1".to_vec()).unwrap();
    assert_eq!(s.perform(op(OperationKind::Rename, &["old", "new"]), 2).map(reasons), Ok(vec![Ok(())]));
    assert_eq!(s.tree.read(&p("/w/new/f")), Some(b"1".to_vec()));
    assert!(!s.tree.holds(&p("/w/old")));
    assert_eq!(s.undo().map(reasons), Ok(vec![Ok(())]));
    assert_eq!(s.tree.read(&p("/w/old/f")), Some(b"1".to_vec()));
    assert!(!s.tree.holds(&p("/w/new")));
    assert_eq!(s.journal.len(), 1);
}

#[test]
fn tasks_are_planned_from_the_top_of_the_tree() {
    let cwd = p("/w");
    assert_eq!(
        shown(&plan_tasks(&op(OperationKind::Create, &["a", "d/", ""]), &cwd)),
        vec!["create file /w/a", "create directory /w/d", "InvalidPath"]
    );
    assert_eq!(
        shown(&plan_tasks(&op(OperationKind::DeleteIn, &["/box", "a", "d/"]), &cwd)),
        vec!["remove file /box/a", "remove directory /box/d"]
    );
    assert_eq!(
        shown(&plan_tasks(&op(OperationKind::Trash, &["a", "/abs/b", "./c"]), &cwd)),
        vec!["trash /w/a", "trash /abs/b", "trash /w/c"]
    );
    assert_eq!(
        shown(&plan_tasks(&op(OperationKind::Move, &["a", "dir"]), &cwd)),
        vec!["move /w/a to /w/dir/a"]
    );
    assert_eq!(
        shown(&plan_tasks(&op(OperationKind::Rename, &["a", "b"]), &cwd)),
        vec!["rename /w/a to /w/b"]
    );
    assert_eq!(shown(&plan_tasks(&op(OperationKind::Move, &["a"]), &cwd)), vec!["InvalidPath"]);
}

#[test]
fn what_was_created_last_is_removed_first() {
    let cwd = p("/w");
    assert_eq!(
        shown(&plan_reversal(&op(OperationKind::Create, &["d/", "d/f"]), &cwd)),
        vec!["remove file /w/d/f", "remove directory /w/d"]
    );
    assert_eq!(
        shown(&plan_reversal(&op(OperationKind::CreateIn, &["box", "a", "b/"]), &cwd)),
        vec!["remove directory /w/box/b", "remove file /w/box/a"]
    );
    assert_eq!(
        shown(&plan_reversal(&op(OperationKind::Trash, &["a", "b"]), &cwd)),
        vec!["restore /w/a", "restore /w/b"]
    );
    assert_eq!(
        shown(&plan_reversal(&op(OperationKind::Move, &["a", "dir"]), &cwd)),
        vec!["move back /w/dir/a to /w/a"]
    );
    assert_eq!(
        shown(&plan_reversal(&op(OperationKind::Rename, &["a", "b"]), &cwd)),
        vec!["rename /w/b to /w/a"]
    );
    assert!(plan_reversal(&op(OperationKind::Delete, &["a"]), &cwd).is_empty());
    assert!(plan_reversal(&op(OperationKind::DeleteIn, &["d", "a"]), &cwd).is_empty());
}

#[test]
fn a_session_creates_directories_with_their_content_and_undoes_them() {
    let mut s = session_at("/w");
    assert_eq!(s.perform(op(OperationKind::Create, &["d/", "d/f"]), 1).map(reasons), Ok(vec![Ok(()), Ok(())]));
    assert_eq!(s.undo().map(reasons), Ok(vec![Ok(()), Ok(())]));
    assert!(!s.tree.holds(&p("/w/d")));
    assert!(s.journal.is_empty());
    assert!(succeeded(&vec![]));
    assert!(succeeded(&vec![Ok(()), Ok(())]));
    assert!(!succeeded(&vec![Ok(()), Err(Refusal::plain(Error::IoFailure))]));
    let tasks = vec![Ok(Task::Apply(FsAction::CreateFile(p("/w/x")))), Err(Error::InvalidPath)];
    assert_eq!(s.carry_out(&tasks), vec![Ok(()), Err(Refusal::plain(Error::InvalidPath))]);
    assert!(s.tree.holds(&p("/w/x")));
}
