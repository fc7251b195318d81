use punch::action::FsAction;
use punch::commands::{
    create_files, delete_files, input_type, listing_line, operation_kind, plan_move,
    plan_move_back, relocate, rename_back, rename_file, Flags, InputType,
};
use punch::operation::OperationKind;
use punch::error::Error;
use punch::in_directory::{create_in_dir, delete_files_dir};
use punch::path::Path;

fn strings(items: &[&str]) -> Vec<String> {
    items.iter().map(|s| s.to_string()).collect()
}

fn shown(plan: &[Result<FsAction, Error>]) -> Vec<String> {
    plan.iter()
        .map(|step| match step {
            Ok(action) => action.describe(),
            Err(e) => format!("{:?}", e),
        })
        .collect()
}

fn words(plan: &[FsAction]) -> Vec<String> {
    plan.iter().map(|a| a.describe()).collect()
}

#[test]
fn create_in_dir_plans_one_step_per_entry() {
    let cwd = Path::from_text("/home/user");
    let plan = create_in_dir(&strings(&["target", "a.txt", "sub/", "deep/b.txt"]), &cwd);
    assert_eq!(
        shown(&plan),
        vec![
            "create file target/a.txt",
            "create directory target/sub",
            "create file target/deep/b.txt",
        ]
    );
}

#[test]
fn delete_files_dir_mirrors_creation() {
    let cwd = Path::from_text("/home/user");
    let plan = delete_files_dir(&strings(&["./target/", "a.txt", "sub/"]), &cwd);
    assert_eq!(
        shown(&plan),
        vec!["remove file /home/user/target/a.txt", "remove directory /home/user/target/sub"]
    );
}

#[test]
fn entries_without_a_name_are_refused_one_by_one() {
    let cwd = Path::root();
    let plan = create_in_dir(&strings(&["/srv", "", "ok", "./", "/"]), &cwd);
    assert_eq!(
        shown(&plan),
        vec!["InvalidPath", "create file /srv/ok", "InvalidPath", "InvalidPath"]
    );
}

#[test]
fn an_unusable_target_fails_every_entry() {
    let cwd = Path::root();
    let plan = delete_files_dir(&strings(&["", "a", "b/"]), &cwd);
    assert_eq!(shown(&plan), vec!["InvalidPath", "InvalidPath"]);
    assert!(create_in_dir(&strings(&[]), &cwd).is_empty());
    assert!(create_in_dir(&strings(&["only"]), &cwd).is_empty());
    assert!(delete_files_dir(&strings(&[]), &cwd).is_empty());
}

#[test]
fn create_makes_a_directory_of_an_argument_that_ends_with_a_separator() {
    let cwd = Path::from_text("/work");
    let plan = create_files(&strings(&["sub/", "notes.txt", "./a/b/", ""]), &cwd);
    assert_eq!(
        shown(&plan),
        vec![
            "create directory sub",
            "create file notes.txt",
            "create directory /work/a/b",
            "InvalidPath",
        ]
    );
    assert_eq!(plan[0], Ok(FsAction::CreateDirectory(Path::from_text("sub"))));
}

#[test]
fn delete_removes_files_and_whole_directories() {
    let cwd = Path::from_text("/work");
    let plan = delete_files(&strings(&["old/", "/tmp/x", "."]), &cwd);
    assert_eq!(shown(&plan), vec!["remove directory old", "remove file /tmp/x", "InvalidPath"]);
    assert!(delete_files(&strings(&[]), &cwd).is_empty());
}

#[test]
fn the_first_option_in_order_selects_the_command() {
    let none = Flags::default();
    assert_eq!(input_type(&none), None);
    assert_eq!(input_type(&Flags { targets: 2, ..none }), Some(InputType::Create));
    assert_eq!(input_type(&Flags { delete: true, ..none }), Some(InputType::Del));
    assert_eq!(input_type(&Flags { create_in: true, ..none }), Some(InputType::CreateIn));
    assert_eq!(input_type(&Flags { delete_in: true, ..none }), Some(InputType::DeleteIn));
    assert_eq!(input_type(&Flags { trash: true, ..none }), Some(InputType::Trash));
    assert_eq!(input_type(&Flags { undo: true, ..none }), Some(InputType::Undo));
    assert_eq!(input_type(&Flags { show: true, ..none }), Some(InputType::Show));
    assert_eq!(input_type(&Flags { list: true, ..none }), Some(InputType::List));
    assert_eq!(input_type(&Flags { move_file: true, ..none }), Some(InputType::Move));
    assert_eq!(input_type(&Flags { open: true, ..none }), Some(InputType::Open));
    assert_eq!(input_type(&Flags { rename: Some(2), ..none }), Some(InputType::Rename));
    assert_eq!(input_type(&Flags { rename: Some(1), open: true, ..none }), None);
    assert_eq!(input_type(&Flags { rename: Some(3), ..none }), None);
    let many = Flags { delete_in: true, delete: true, trash: true, targets: 1, undo: true, ..none };
    assert_eq!(input_type(&many), Some(InputType::DeleteIn));
    let some = Flags { trash: true, targets: 1, undo: true, show: true, ..none };
    assert_eq!(input_type(&some), Some(InputType::Trash));
    let late = Flags { undo: true, show: true, list: true, rename: Some(2), ..none };
    assert_eq!(input_type(&late), Some(InputType::Undo));
}

#[test]
fn commands_that_change_the_file_system_have_a_kind_of_operation() {
    assert_eq!(operation_kind(InputType::Create), Some(OperationKind::Create));
    assert_eq!(operation_kind(InputType::Del), Some(OperationKind::Delete));
    assert_eq!(operation_kind(InputType::CreateIn), Some(OperationKind::CreateIn));
    assert_eq!(operation_kind(InputType::DeleteIn), Some(OperationKind::DeleteIn));
    assert_eq!(operation_kind(InputType::Trash), Some(OperationKind::Trash));
    assert_eq!(operation_kind(InputType::Move), Some(OperationKind::Move));
    assert_eq!(operation_kind(InputType::Rename), Some(OperationKind::Rename));
    for quiet in [InputType::Undo, InputType::Show, InputType::List, InputType::Open] {
        assert_eq!(operation_kind(quiet), None);
    }
}

#[test]
fn a_move_into_a_directory_creates_the_directory_when_it_is_missing() {
    let cwd = Path::from_text("/work");
    let r = relocate(&strings(&["a/report.txt", "archive/2024"]), &cwd).unwrap();
    assert_eq!(r.source.render(), "a/report.txt");
    assert_eq!(r.directory.render(), "archive/2024");
    assert_eq!(r.destination.render(), "archive/2024/report.txt");
    assert!(!r.by_levels);
    assert_eq!(
        words(&plan_move(&r, true, false)),
        vec![
            "create directory archive/2024",
            "create file archive/2024/report.txt",
            "copy a/report.txt to archive/2024/report.txt",
            "remove file a/report.txt",
        ]
    );
    assert_eq!(words(&plan_move(&r, true, true)).len(), 3);
    assert_eq!(words(&plan_move(&r, false, false)), vec!["create directory archive/2024"]);
    assert!(plan_move(&r, false, true).is_empty());
    assert_eq!(
        words(&plan_move_back(&r)),
        vec![
            "copy archive/2024/report.txt to a/report.txt",
            "remove file archive/2024/report.txt",
        ]
    );
}

#[test]
fn a_move_by_levels_goes_up_from_the_working_directory() {
    let cwd = Path::from_text("/home/user/work");
    let r = relocate(&strings(&["report.txt", "2"]), &cwd).unwrap();
    assert!(r.by_levels);
    assert_eq!(r.directory.render(), "/home");
    assert_eq!(r.destination.render(), "/home/report.txt");
    assert_eq!(
        words(&plan_move(&r, true, false)),
        vec![
            "create file /home/report.txt",
            "copy report.txt to /home/report.txt",
            "remove file report.txt",
        ]
    );
    let top = relocate(&strings(&["report.txt", "9"]), &cwd).unwrap();
    assert_eq!(top.directory.render(), "/");
    let stay = relocate(&strings(&["sub/report.txt", "0"]), &cwd).unwrap();
    assert_eq!(stay.destination.render(), "/home/user/work/report.txt");
    let down = relocate(&strings(&["sub/report.txt", "-4"]), &cwd).unwrap();
    assert_eq!(down.directory, cwd);
    let named = relocate(&strings(&["report.txt", "200"]), &cwd).unwrap();
    assert!(!named.by_levels);
    assert_eq!(named.destination.render(), "200/report.txt");
}

#[test]
fn a_move_needs_a_file_and_a_place() {
    let cwd = Path::from_text("/work");
    assert_eq!(relocate(&strings(&[]), &cwd), Err(Error::InvalidPath));
    assert_eq!(relocate(&strings(&["a"]), &cwd), Err(Error::InvalidPath));
    assert_eq!(relocate(&strings(&["", "b"]), &cwd), Err(Error::InvalidPath));
    assert_eq!(relocate(&strings(&["a", "/"]), &cwd), Err(Error::InvalidPath));
}

#[test]
fn a_renaming_takes_two_names() {
    let cwd = Path::from_text("/work");
    let step = rename_file(&strings(&["./old.txt", "new.txt"]), &cwd).unwrap();
    assert_eq!(step.describe(), "rename /work/old.txt to new.txt");
    let back = rename_back(&strings(&["./old.txt", "new.txt"]), &cwd).unwrap();
    assert_eq!(back.describe(), "rename new.txt to /work/old.txt");
    assert_eq!(rename_file(&strings(&["a"]), &cwd), Err(Error::InvalidPath));
    assert_eq!(rename_file(&strings(&["a", "b", "c"]), &cwd), Err(Error::InvalidPath));
    assert_eq!(rename_file(&strings(&["a", ""]), &cwd), Err(Error::InvalidPath));
    assert_eq!(rename_back(&strings(&[".", "b"]), &cwd), Err(Error::InvalidPath));
}

#[test]
fn listing_lines_mark_directories_and_files() {
    assert_eq!(listing_line("src", true), "<DIRECTORY> src");
    assert_eq!(listing_line("Cargo.toml", false), "     <FILE> Cargo.toml");
    assert_eq!(listing_line("", false), "     <FILE> ");
}

#[test]
fn steps_are_put_in_words_and_anchored() {
    let cwd = Path::from_text("/w");
    let copy = FsAction::CopyBytes(Path::from_text("a"), Path::from_text("/b/c"));
    assert_eq!(copy.describe(), "copy a to /b/c");
    assert_eq!(copy.anchor(&cwd).describe(), "copy /w/a to /b/c");
    assert_eq!(copy.clone(), copy);
    assert_eq!(FsAction::CreateFile(Path::from_text("x")).anchor(&cwd).describe(), "create file /w/x");
    assert_eq!(
        FsAction::Rename(Path::from_text("x"), Path::from_text("y")).anchor(&cwd).describe(),
        "rename /w/x to /w/y"
    );
    assert_eq!(Error::NotTrashed.describe(), "nothing is in the trash for this path");
    assert_eq!(Error::JournalEmpty.describe(), "the journal is empty");
}
