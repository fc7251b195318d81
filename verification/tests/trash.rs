use punch::action::{FsAction, Refusal};
use punch::error::Error;
use punch::path::Path;
use punch::trash::TrashStore;
use punch::tree::FileTree;

fn p(text: &str) -> Path {
    Path::from_text(text)
}

fn reason(outcome: Result<(), Refusal>) -> Result<(), Error> {
    outcome.map_err(|r| r.error)
}

fn store() -> TrashStore {
    TrashStore::new(p("/home/user/.punch/trash"))
}

fn tree_with_trash() -> FileTree {
    let mut tree = FileTree::new();
    tree.apply(&FsAction::CreateDirectory(p("/home/user/.punch/trash"))).unwrap();
    tree
}

#[test]
fn the_mirror_keeps_the_whole_path_under_the_trash_root() {
    let s = store();
    assert_eq!(s.mirror(&p("/a/file.txt")).render(), "/home/user/.punch/trash/a/file.txt");
    assert_eq!(s.mirror(&p("/b/file.txt")).render(), "/home/user/.punch/trash/b/file.txt");
    assert_eq!(s.mirror(&Path::root()).render(), "/home/user/.punch/trash");
}

#[test]
fn a_staged_file_comes_back_with_its_content() {
    let s = store();
    let mut tree = tree_with_trash();
    let f = p("/work/data.bin");
    let content: Vec<u8> = (0..=255).collect();
    tree.apply(&FsAction::CreateDirectory(p("/work"))).unwrap();
    tree.write(&f, content.clone()).unwrap();
    assert_eq!(s.stage(&mut tree, &f), Ok(()));
    assert_eq!(tree.read(&f), Some(content.clone()));
    assert_eq!(tree.read(&s.mirror(&f)), Some(content.clone()));
    tree.apply(&FsAction::RemoveFile(f.clone())).unwrap();
    assert_eq!(tree.read(&f), None);
    assert_eq!(s.restore(&mut tree, &f), Ok(()));
    assert_eq!(tree.read(&f), Some(content.clone()));
    assert_eq!(tree.read(&s.mirror(&f)), Some(content));
}

#[test]
fn a_staged_tree_comes_back_with_its_whole_structure() {
    let s = store();
    let mut tree = tree_with_trash();
    tree.apply(&FsAction::CreateDirectory(p("/work/site/css/themes"))).unwrap();
    tree.apply(&FsAction::CreateDirectory(p("/work/site/empty"))).unwrap();
    tree.write(&p("/work/site/index.html"), b"<html>".to_vec()).unwrap();
    tree.write(&p("/work/site/css/main.css"), b"body{}".to_vec()).unwrap();
    tree.write(&p("/work/site/css/themes/dark.css"), b"*{}".to_vec()).unwrap();
    tree.write(&p("/work/other.txt"), b"stay".to_vec()).unwrap();
    let site = p("/work/site");
    assert_eq!(s.trash(&mut tree, &site), Ok(()));
    assert!(!tree.holds(&site));
    assert!(!tree.holds(&p("/work/site/css/themes/dark.css")));
    assert_eq!(tree.read(&p("/work/other.txt")), Some(b"stay".to_vec()));
    assert_eq!(s.restore(&mut tree, &site), Ok(()));
    assert!(tree.is_dir(&p("/work/site/empty")));
    assert!(tree.is_dir(&p("/work/site/css/themes")));
    assert_eq!(tree.read(&p("/work/site/index.html")), Some(b"<html>".to_vec()));
    assert_eq!(tree.read(&p("/work/site/css/main.css")), Some(b"body{}".to_vec()));
    assert_eq!(tree.read(&p("/work/site/css/themes/dark.css")), Some(b"*{}".to_vec()));
    assert_eq!(
        tree.read(&p("/home/user/.punch/trash/work/site/css/themes/dark.css")),
        Some(b"*{}".to_vec())
    );
}

#[test]
fn files_of_the_same_name_in_different_directories_do_not_collide() {
    let s = store();
    let mut tree = tree_with_trash();
    tree.apply(&FsAction::CreateDirectory(p("/a"))).unwrap();
    tree.apply(&FsAction::CreateDirectory(p("/b"))).unwrap();
    tree.write(&p("/a/file.txt"), b"from a".to_vec()).unwrap();
    tree.write(&p("/b/file.txt"), b"from b".to_vec()).unwrap();
    assert_eq!(s.trash(&mut tree, &p("/a/file.txt")), Ok(()));
    assert_eq!(s.trash(&mut tree, &p("/b/file.txt")), Ok(()));
    assert_eq!(tree.read(&s.mirror(&p("/a/file.txt"))), Some(b"from a".to_vec()));
    assert_eq!(tree.read(&s.mirror(&p("/b/file.txt"))), Some(b"from b".to_vec()));
    assert_eq!(s.restore(&mut tree, &p("/b/file.txt")), Ok(()));
    assert_eq!(s.restore(&mut tree, &p("/a/file.txt")), Ok(()));
    assert_eq!(tree.read(&p("/a/file.txt")), Some(b"from a".to_vec()));
    assert_eq!(tree.read(&p("/b/file.txt")), Some(b"from b".to_vec()));
}

#[test]
fn restoring_what_was_never_staged_is_not_trashed() {
    let s = store();
    let mut tree = tree_with_trash();
    tree.apply(&FsAction::CreateDirectory(p("/a"))).unwrap();
    assert_eq!(s.restore(&mut tree, &p("/a/never.txt")), Err(Refusal::plain(Error::NotTrashed)));
    assert!(!tree.holds(&p("/a/never.txt")));
    assert_eq!(s.begin_restore(&p("/a/never.txt"), None).err(), Some(Error::NotTrashed));
}

#[test]
fn staging_fails_without_touching_the_original() {
    let s = store();
    let mut tree = tree_with_trash();
    assert_eq!(s.stage(&mut tree, &p("/missing")), Err(Refusal::plain(Error::IoFailure)));
    assert_eq!(s.stage(&mut tree, &p("/home")), Err(Refusal::plain(Error::InvalidPath)));
    assert_eq!(reason(s.trash(&mut tree, &Path::root())), Err(Error::InvalidPath));
    assert!(tree.is_dir(&p("/home/user/.punch/trash")));
    tree.apply(&FsAction::CreateDirectory(p("/w/d"))).unwrap();
    tree.write(&p("/w/d/f"), b"keep".to_vec()).unwrap();
    tree.write(&p("/home/user/.punch/trash/w"), b"in the way".to_vec()).unwrap();
    assert_eq!(
        s.trash(&mut tree, &p("/w/d")),
        Err(Refusal::of_step(&FsAction::CreateDirectory(p("/home/user/.punch/trash/w/d"))))
    );
    assert_eq!(tree.read(&p("/w/d/f")), Some(b"keep".to_vec()));
}

#[test]
fn a_path_that_is_not_absolute_has_no_place_in_the_trash() {
    let s = store();
    let mut tree = tree_with_trash();
    tree.apply(&FsAction::CreateDirectory(p("a"))).unwrap();
    tree.write(&p("a/f"), b"relative".to_vec()).unwrap();
    tree.apply(&FsAction::CreateDirectory(p("/a"))).unwrap();
    tree.write(&p("/a/f"), b"absolute".to_vec()).unwrap();
    let invalid = Err(Refusal::plain(Error::InvalidPath));
    assert_eq!(s.stage(&mut tree, &p("a/f")), invalid);
    assert_eq!(s.trash(&mut tree, &p("a/f")), invalid);
    assert_eq!(s.restore(&mut tree, &p("a/f")), invalid);
    assert_eq!(s.begin_stage(&p("a/f"), false).err(), Some(Error::InvalidPath));
    assert_eq!(s.begin_restore(&p("a/f"), Some(false)).err(), Some(Error::InvalidPath));
    assert_eq!(s.begin_restore(&p("a/f"), None).err(), Some(Error::InvalidPath));
    assert_eq!(tree.read(&p("a/f")), Some(b"relative".to_vec()));
    assert!(!tree.holds(&s.mirror(&p("/a/f"))));
    assert_eq!(s.trash(&mut tree, &p("/a/f")), Ok(()));
    assert_eq!(s.restore(&mut tree, &p("a/f")), invalid);
    assert_eq!(tree.read(&p("a/f")), Some(b"relative".to_vec()));
    assert_eq!(s.restore(&mut tree, &p("/a/f")), Ok(()));
    assert_eq!(tree.read(&p("/a/f")), Some(b"absolute".to_vec()));
}

#[test]
fn the_original_is_removed_only_after_a_staging_that_succeeded() {
    let f = p("/w/f");
    assert_eq!(TrashStore::after_stage(&f, false, true), Some(FsAction::RemoveFile(f.clone())));
    assert_eq!(TrashStore::after_stage(&f, true, true), Some(FsAction::RemoveDirectory(f.clone())));
    assert_eq!(TrashStore::after_stage(&f, true, false), None);
    assert_eq!(TrashStore::after_stage(&f, false, false), None);
}

#[test]
fn staging_and_restoring_begin_with_a_walk() {
    let s = store();
    let (walk, first) = s.begin_stage(&p("/w/dir"), true).unwrap();
    assert!(first.is_empty());
    assert_eq!(walk.from, p("/w/dir"));
    assert_eq!(walk.to, p("/home/user/.punch/trash/w/dir"));
    assert_eq!(walk.next(), Some(p("/w/dir")));
    let (walk, first) = s.begin_stage(&p("/w/f"), false).unwrap();
    assert!(walk.is_done());
    let steps: Vec<String> = first.iter().map(|a| a.describe()).collect();
    assert_eq!(
        steps,
        vec![
            "create directory /home/user/.punch/trash/w",
            "copy /w/f to /home/user/.punch/trash/w/f",
        ]
    );
    assert_eq!(s.begin_stage(&p("/home/user"), true).err(), Some(Error::InvalidPath));
    let (walk, first) = s.begin_restore(&p("/w/dir"), Some(true)).unwrap();
    assert!(first.is_empty());
    assert_eq!(walk.next(), Some(p("/home/user/.punch/trash/w/dir")));
    assert_eq!(walk.to, p("/w/dir"));
    let (_, first) = s.begin_restore(&p("/w/f"), Some(false)).unwrap();
    let steps: Vec<String> = first.iter().map(|a| a.describe()).collect();
    assert_eq!(
        steps,
        vec!["create directory /w", "copy /home/user/.punch/trash/w/f to /w/f"]
    );
    assert_eq!(s.begin_restore(&p("/home"), Some(true)).err(), Some(Error::InvalidPath));
    assert_eq!(s.begin_restore(&p("/home"), None).err(), Some(Error::InvalidPath));
}

#[test]
fn a_restore_brings_back_what_an_earlier_staging_left_in_the_mirror() {
    let s = store();
    let mut tree = tree_with_trash();
    tree.apply(&FsAction::CreateDirectory(p("/d"))).unwrap();
    tree.write(&p("/d/old"), b"1".to_vec()).unwrap();
    assert_eq!(s.trash(&mut tree, &p("/d")), Ok(()));
    tree.apply(&FsAction::CreateDirectory(p("/d"))).unwrap();
    tree.write(&p("/d/new"), b"2".to_vec()).unwrap();
    assert_eq!(s.trash(&mut tree, &p("/d")), Ok(()));
    assert_eq!(s.restore(&mut tree, &p("/d")), Ok(()));
    assert_eq!(tree.read(&p("/d/new")), Some(b"2".to_vec()));
    assert_eq!(tree.read(&p("/d/old")), Some(b"1".to_vec()));
}
