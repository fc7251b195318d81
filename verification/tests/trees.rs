use punch::action::{FsAction, Refusal};
use punch::error::Error;
use punch::path::Path;
use punch::tree::{copy_of, DirEntry, FileTree};
use punch::walk::TreeCopy;

fn p(text: &str) -> Path {
    Path::from_text(text)
}

fn reason(outcome: Result<(), Refusal>) -> Result<(), Error> {
    outcome.map_err(|r| r.error)
}

fn names(listing: Vec<DirEntry>) -> Vec<String> {
    let mut out: Vec<String> = listing
        .into_iter()
        .map(|e| if e.directory { format!("{}/", e.name) } else { e.name })
        .collect();
    out.sort();
    out
}

/// /project with src/main.rs, src/util/io.rs, docs/ (empty) and README.
fn project() -> FileTree {
    let mut tree = FileTree::new();
    tree.apply(&FsAction::CreateDirectory(p("/project/src/util"))).unwrap();
    tree.apply(&FsAction::CreateDirectory(p("/project/docs"))).unwrap();
    tree.write(&p("/project/README"), b"read me".to_vec()).unwrap();
    tree.write(&p("/project/src/main.rs"), b"fn main() {}".to_vec()).unwrap();
    tree.write(&p("/project/src/util/io.rs"), b"// io".to_vec()).unwrap();
    tree
}

#[test]
fn a_new_tree_holds_the_root_and_nothing_else() {
    let mut tree = FileTree::new();
    assert!(tree.is_dir(&Path::root()));
    assert!(!tree.holds(&Path::working_directory()));
    assert_eq!(tree.apply(&FsAction::CreateFile(p("f"))), Err(Error::IoFailure));
    assert_eq!(tree.apply(&FsAction::CreateDirectory(p("d"))), Ok(()));
    assert!(tree.is_dir(&Path::working_directory()));
    assert!(tree.is_dir(&p("d")));
    assert_eq!(tree.apply(&FsAction::RemoveDirectory(Path::working_directory())), Ok(()));
    assert!(!tree.holds(&p("d")));
    assert!(!tree.holds(&p("/a")));
    assert_eq!(tree.list(&Path::root()), Some(vec![]));
    assert_eq!(tree.list(&p("/a")), None);
}

#[test]
fn creating_a_directory_creates_all_above_it() {
    let mut tree = FileTree::new();
    assert_eq!(tree.apply(&FsAction::CreateDirectory(p("/a/b/c"))), Ok(()));
    assert!(tree.is_dir(&p("/a")));
    assert!(tree.is_dir(&p("/a/b")));
    assert!(tree.is_dir(&p("/a/b/c")));
    assert_eq!(tree.apply(&FsAction::CreateDirectory(p("/a/b"))), Ok(()));
    tree.write(&p("/a/file"), vec![1]).unwrap();
    assert_eq!(tree.apply(&FsAction::CreateDirectory(p("/a/file/x"))), Err(Error::IoFailure));
    assert_eq!(tree.apply(&FsAction::CreateDirectory(p("/a/file"))), Err(Error::IoFailure));
    assert!(!tree.holds(&p("/a/file/x")));
}

#[test]
fn creating_a_file_needs_its_directory() {
    let mut tree = FileTree::new();
    assert_eq!(tree.apply(&FsAction::CreateFile(p("/a/f"))), Err(Error::IoFailure));
    tree.apply(&FsAction::CreateDirectory(p("/a"))).unwrap();
    assert_eq!(tree.apply(&FsAction::CreateFile(p("/a/f"))), Ok(()));
    assert_eq!(tree.read(&p("/a/f")), Some(vec![]));
    tree.write(&p("/a/f"), vec![1, 2, 3]).unwrap();
    assert_eq!(tree.read(&p("/a/f")), Some(vec![1, 2, 3]));
    assert_eq!(tree.apply(&FsAction::CreateFile(p("/a/f"))), Ok(()));
    assert_eq!(tree.read(&p("/a/f")), Some(vec![]));
    assert_eq!(tree.apply(&FsAction::CreateFile(p("/a"))), Err(Error::IoFailure));
    assert_eq!(tree.apply(&FsAction::CreateFile(Path::root())), Err(Error::IoFailure));
    assert_eq!(tree.write(&p("/missing/f"), vec![]), Err(Error::IoFailure));
    assert_eq!(tree.read(&p("/a")), None);
    assert_eq!(tree.read(&p("/nothing")), None);
    assert_eq!(copy_of(&vec![9, 8]), vec![9, 8]);
}

#[test]
fn removing_takes_a_file_or_a_whole_directory() {
    let mut tree = project();
    assert_eq!(tree.apply(&FsAction::RemoveFile(p("/project/src"))), Err(Error::IoFailure));
    assert_eq!(tree.apply(&FsAction::RemoveDirectory(p("/project/README"))), Err(Error::IoFailure));
    assert_eq!(tree.apply(&FsAction::RemoveFile(p("/project/none"))), Err(Error::IoFailure));
    assert_eq!(tree.apply(&FsAction::RemoveFile(p("/project/README"))), Ok(()));
    assert!(!tree.holds(&p("/project/README")));
    assert_eq!(tree.apply(&FsAction::RemoveDirectory(p("/project/src"))), Ok(()));
    assert!(!tree.holds(&p("/project/src")));
    assert!(!tree.holds(&p("/project/src/main.rs")));
    assert!(!tree.holds(&p("/project/src/util/io.rs")));
    assert!(tree.is_dir(&p("/project/docs")));
    assert!(tree.is_dir(&p("/project")));
}

#[test]
fn copying_bytes_needs_a_file_and_a_place() {
    let mut tree = project();
    let copy = FsAction::CopyBytes(p("/project/README"), p("/project/docs/README"));
    assert_eq!(tree.apply(&copy), Ok(()));
    assert_eq!(tree.read(&p("/project/docs/README")), Some(b"read me".to_vec()));
    assert_eq!(tree.read(&p("/project/README")), Some(b"read me".to_vec()));
    let onto_dir = FsAction::CopyBytes(p("/project/README"), p("/project/src"));
    assert_eq!(tree.apply(&onto_dir), Err(Error::IoFailure));
    let from_dir = FsAction::CopyBytes(p("/project/src"), p("/project/x"));
    assert_eq!(tree.apply(&from_dir), Err(Error::IoFailure));
    let nowhere = FsAction::CopyBytes(p("/project/README"), p("/nowhere/x"));
    assert_eq!(tree.apply(&nowhere), Err(Error::IoFailure));
}

#[test]
fn renaming_moves_all_that_lies_below() {
    let mut tree = project();
    assert_eq!(tree.apply(&FsAction::Rename(p("/project/src"), p("/project/lib"))), Ok(()));
    assert!(!tree.holds(&p("/project/src")));
    assert!(!tree.holds(&p("/project/src/util/io.rs")));
    assert!(tree.is_dir(&p("/project/lib/util")));
    assert_eq!(tree.read(&p("/project/lib/main.rs")), Some(b"fn main() {}".to_vec()));
    assert_eq!(tree.read(&p("/project/lib/util/io.rs")), Some(b"// io".to_vec()));
    assert_eq!(
        tree.apply(&FsAction::Rename(p("/project/lib"), p("/project/docs"))),
        Err(Error::IoFailure)
    );
    assert_eq!(
        tree.apply(&FsAction::Rename(p("/project/lib"), p("/project/lib/inner"))),
        Err(Error::IoFailure)
    );
    assert_eq!(tree.apply(&FsAction::Rename(p("/none"), p("/other"))), Err(Error::IoFailure));
    assert_eq!(
        tree.apply(&FsAction::Rename(p("/project/README"), p("/gone/README"))),
        Err(Error::IoFailure)
    );
    assert_eq!(tree.apply(&FsAction::Rename(p("/project/README"), p("/README"))), Ok(()));
    assert_eq!(tree.read(&p("/README")), Some(b"read me".to_vec()));
}

#[test]
fn a_listing_names_each_entry_once_with_its_kind() {
    let tree = project();
    assert_eq!(names(tree.list(&p("/project")).unwrap()), vec!["README", "docs/", "src/"]);
    assert_eq!(names(tree.list(&p("/project/src")).unwrap()), vec!["main.rs", "util/"]);
    assert_eq!(names(tree.list(&p("/project/docs")).unwrap()), Vec::<String>::new());
    assert_eq!(tree.list(&p("/project/README")), None);
}

#[test]
fn steps_are_taken_in_order_up_to_the_first_refusal() {
    let mut tree = FileTree::new();
    let steps = vec![
        FsAction::CreateDirectory(p("/a")),
        FsAction::CreateFile(p("/a/f")),
        FsAction::RemoveFile(p("/a/missing")),
        FsAction::CreateFile(p("/a/g")),
    ];
    assert_eq!(tree.apply_all(&steps), Err(2));
    assert!(tree.holds(&p("/a/f")));
    assert!(!tree.holds(&p("/a/g")));
    assert_eq!(tree.apply_all(&steps[..2].to_vec()), Ok(()));
    assert_eq!(tree.apply_all(&vec![]), Ok(()));
}

#[test]
fn a_walk_visits_directories_from_a_stack() {
    let (mut walk, first) = TreeCopy::start(p("/src"), p("/dst"), true);
    assert!(first.is_empty());
    assert!(!walk.is_done());
    assert_eq!(walk.next(), Some(p("/src")));
    let top = vec![
        DirEntry { name: "a.txt".to_string(), directory: false },
        DirEntry { name: "one".to_string(), directory: true },
        DirEntry { name: "b.txt".to_string(), directory: false },
        DirEntry { name: "two".to_string(), directory: true },
    ];
    let steps: Vec<String> = walk.visit(&top).iter().map(|a| a.describe()).collect();
    assert_eq!(
        steps,
        vec![
            "create directory /dst",
            "copy /src/a.txt to /dst/a.txt",
            "copy /src/b.txt to /dst/b.txt",
        ]
    );
    assert_eq!(walk.next(), Some(p("/src/two")));
    let inner = vec![DirEntry { name: "deep".to_string(), directory: true }];
    let steps: Vec<String> = walk.visit(&inner).iter().map(|a| a.describe()).collect();
    assert_eq!(steps, vec!["create directory /dst/two"]);
    assert_eq!(walk.next(), Some(p("/src/two/deep")));
    assert_eq!(walk.visit(&vec![]).len(), 1);
    assert_eq!(walk.next(), Some(p("/src/one")));
    let steps: Vec<String> = walk.visit(&vec![]).iter().map(|a| a.describe()).collect();
    assert_eq!(steps, vec!["create directory /dst/one"]);
    assert!(walk.is_done());
    assert_eq!(walk.next(), None);
    assert!(walk.visit(&top).is_empty());
    assert!(walk.is_done());
}

#[test]
fn a_walk_over_a_file_is_done_at_once() {
    let (walk, first) = TreeCopy::start(p("/a/f"), p("/t/a/f"), false);
    assert!(walk.is_done());
    let steps: Vec<String> = first.iter().map(|a| a.describe()).collect();
    assert_eq!(steps, vec!["create directory /t/a", "copy /a/f to /t/a/f"]);
    let (_, first) = TreeCopy::start(p("/a/f"), Path::root(), false);
    assert_eq!(first.len(), 1);
}

#[test]
fn copying_a_tree_copies_every_entry() {
    let mut tree = project();
    assert_eq!(tree.copy_tree(&p("/project"), &p("/backup/project")), Ok(()));
    assert!(tree.is_dir(&p("/backup")));
    assert!(tree.is_dir(&p("/backup/project/docs")));
    assert!(tree.is_dir(&p("/backup/project/src/util")));
    assert_eq!(tree.read(&p("/backup/project/README")), Some(b"read me".to_vec()));
    assert_eq!(tree.read(&p("/backup/project/src/main.rs")), Some(b"fn main() {}".to_vec()));
    assert_eq!(tree.read(&p("/backup/project/src/util/io.rs")), Some(b"// io".to_vec()));
    assert_eq!(tree.read(&p("/project/src/util/io.rs")), Some(b"// io".to_vec()));
    assert_eq!(names(tree.list(&p("/backup/project")).unwrap()), vec!["README", "docs/", "src/"]);
}

#[test]
fn copying_a_tree_is_refused_where_the_paths_overlap_or_the_source_is_missing() {
    let mut tree = project();
    let overlap = Err(Refusal { error: Error::InvalidPath, step: None });
    assert_eq!(tree.copy_tree(&p("/project"), &p("/project/copy")), overlap);
    assert_eq!(tree.copy_tree(&p("/project/src"), &p("/project")), overlap);
    assert_eq!(tree.copy_tree(&p("/project"), &p("/project")), overlap);
    assert_eq!(
        tree.copy_tree(&p("/missing"), &p("/elsewhere")),
        Err(Refusal { error: Error::IoFailure, step: None })
    );
    assert!(!tree.holds(&p("/elsewhere")));
    assert!(!tree.holds(&p("/project/copy")));
}

#[test]
fn a_copy_that_meets_a_clash_stops_and_leaves_the_source_alone() {
    let mut tree = project();
    tree.apply(&FsAction::CreateDirectory(p("/backup/src/main.rs"))).unwrap();
    assert_eq!(
        tree.copy_tree(&p("/project"), &p("/backup")),
        Err(Refusal {
            error: Error::IoFailure,
            step: Some(FsAction::CopyBytes(p("/project/src/main.rs"), p("/backup/src/main.rs"))),
        })
    );
    assert_eq!(tree.read(&p("/project/src/main.rs")), Some(b"fn main() {}".to_vec()));
    assert_eq!(tree.read(&p("/project/README")), Some(b"read me".to_vec()));
    assert!(tree.is_dir(&p("/backup/src/main.rs")));
    let mut other = project();
    other.write(&p("/blocked"), vec![]).unwrap();
    assert_eq!(
        other.copy_tree(&p("/project"), &p("/blocked/project")),
        Err(Refusal::of_step(&FsAction::CreateDirectory(p("/blocked/project"))))
    );
    assert_eq!(
        other.copy_tree(&p("/project/README"), &p("/project/docs")),
        Err(Refusal::of_step(&FsAction::CopyBytes(p("/project/README"), p("/project/docs"))))
    );
    assert_eq!(reason(other.copy_tree(&p("/none"), &p("/x"))), Err(Error::IoFailure));
    assert_eq!(Refusal::plain(Error::NotTrashed), Refusal { error: Error::NotTrashed, step: None });
    assert_eq!(other.copy_tree(&p("/project/README"), &p("/project/docs/R")), Ok(()));
    assert_eq!(other.read(&p("/project/docs/R")), Some(b"read me".to_vec()));
}
