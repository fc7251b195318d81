//! Creating and deleting entries inside a target directory: the first
//! argument names the directory, the others the entries in it.

use vstd::prelude::*;
use crate::action::{planned, ActionView, FsAction};
use crate::error::Error;
use crate::path::{resolve, resolved, Path, TargetView};
use crate::text::{ends_with_char, finishes_with, names_of, separator, split_names, texts};

verus! {

/// Where the entry written as `entry` lies in the directory `target`, and
/// whether it is marked as a directory. An entry without a name is refused,
/// and so is every entry of a target that could not be resolved.
pub open spec fn entry_in(target: Result<TargetView, Error>, entry: Seq<char>) -> Result<
    TargetView,
    Error,
> {
    match target {
        Err(e) => Err(e),
        Ok(dir) => if names_of(entry).len() == 0 {
            Err(Error::InvalidPath)
        } else {
            Ok(
                TargetView {
                    path: dir.path.extend(names_of(entry)),
                    directory: finishes_with(entry, separator()),
                },
            )
        },
    }
}

/// The step that creates `entry` in `target`.
pub open spec fn creation_in(target: Result<TargetView, Error>, entry: Seq<char>) -> Result<
    ActionView,
    Error,
> {
    match entry_in(target, entry) {
        Err(e) => Err(e),
        Ok(t) => Ok(
            if t.directory {
                ActionView::CreateDirectory(t.path)
            } else {
                ActionView::CreateFile(t.path)
            },
        ),
    }
}

/// The step that deletes `entry` from `target`.
pub open spec fn deletion_in(target: Result<TargetView, Error>, entry: Seq<char>) -> Result<
    ActionView,
    Error,
> {
    match entry_in(target, entry) {
        Err(e) => Err(e),
        Ok(t) => Ok(
            if t.directory {
                ActionView::RemoveDirectory(t.path)
            } else {
                ActionView::RemoveFile(t.path)
            },
        ),
    }
}

/// How many entries the arguments name: all but the first.
pub open spec fn entries_of(args: Seq<Seq<char>>) -> nat {
    if args.len() == 0 {
        0
    } else {
        (args.len() - 1) as nat
    }
}

/// The path of one entry of the target directory.
fn locate(target: &Result<Path, Error>, entry: &str) -> (outcome: Result<(Path, bool), Error>)
    ensures
        match outcome {
            Ok((path, directory)) => match target {
                Ok(dir) => {
                    &&& names_of(entry@).len() > 0
                    &&& path@ == dir@.extend(names_of(entry@))
                    &&& directory == finishes_with(entry@, separator())
                },
                Err(_) => false,
            },
            Err(e) => match target {
                Ok(_) => names_of(entry@).len() == 0 && e == Error::InvalidPath,
                Err(t) => e == *t,
            },
        },
{
    match target {
        Err(e) => Err(*e),
        Ok(dir) => {
            let names = split_names(entry);
            if names.len() == 0 {
                Err(Error::InvalidPath)
            } else {
                Ok((dir.extend(&names), ends_with_char(entry, '/')))
            }
        },
    }
}

/// The target directory that the first argument names.
fn target_of(args: &Vec<String>, cwd: &Path) -> (target: Result<Path, Error>)
    requires
        args.len() > 0,
    ensures
        match target {
            Ok(dir) => resolved(args[0]@, cwd@) matches Ok(t) && t.path == dir@,
            Err(e) => resolved(args[0]@, cwd@) == Err::<TargetView, Error>(e),
        },
{
    match resolve(args[0].as_str(), cwd) {
        Ok(t) => Ok(t.path),
        Err(e) => Err(e),
    }
}

/// Plans the creation of entries inside a directory.
///
/// The first argument names the directory, each further one an entry in it;
/// the plan holds one step for each entry, in order. An entry that ends with
/// a separator is created as a directory, any other as a file. A step is an
/// error where the directory or the entry names no path.
pub fn create_in_dir(args: &Vec<String>, cwd: &Path) -> (plan: Vec<Result<FsAction, Error>>)
    ensures
        plan.len() == entries_of(texts(args@)),
        forall|i: int|
            0 <= i < plan.len() ==> planned(#[trigger] plan[i]) == creation_in(
                resolved(args[0]@, cwd@),
                args[i + 1]@,
            ),
{
    let mut plan: Vec<Result<FsAction, Error>> = Vec::new();
    if args.len() == 0 {
        return plan;
    }
    let target = target_of(args, cwd);
    let mut i: usize = 1;
    while i < args.len()
        invariant
            1 <= i <= args.len(),
            plan.len() == i - 1,
            match target {
                Ok(dir) => resolved(args[0]@, cwd@) matches Ok(t) && t.path == dir@,
                Err(e) => resolved(args[0]@, cwd@) == Err::<TargetView, Error>(e),
            },
            forall|j: int|
                0 <= j < plan.len() ==> planned(#[trigger] plan[j]) == creation_in(
                    resolved(args[0]@, cwd@),
                    args[j + 1]@,
                ),
        decreases args.len() - i,
    {
        let step = match locate(&target, args[i].as_str()) {
            Ok((path, true)) => Ok(FsAction::CreateDirectory(path)),
            Ok((path, false)) => Ok(FsAction::CreateFile(path)),
            Err(e) => Err(e),
        };
        plan.push(step);
        i = i + 1;
    }
    plan
}

/// Plans the deletion of entries inside a directory.
///
/// The first argument names the directory, each further one an entry in it;
/// the plan holds one step for each entry, in order. An entry that ends with
/// a separator is removed as a directory with all that it holds, any other
/// as a file. A step is an error where the directory or the entry names no
/// path.
pub fn delete_files_dir(args: &Vec<String>, cwd: &Path) -> (plan: Vec<Result<FsAction, Error>>)
    ensures
        plan.len() == entries_of(texts(args@)),
        forall|i: int|
            0 <= i < plan.len() ==> planned(#[trigger] plan[i]) == deletion_in(
                resolved(args[0]@, cwd@),
                args[i + 1]@,
            ),
{
    let mut plan: Vec<Result<FsAction, Error>> = Vec::new();
    if args.len() == 0 {
        return plan;
    }
    let target = target_of(args, cwd);
    let mut i: usize = 1;
    while i < args.len()
        invariant
            1 <= i <= args.len(),
            plan.len() == i - 1,
            match target {
                Ok(dir) => resolved(args[0]@, cwd@) matches Ok(t) && t.path == dir@,
                Err(e) => resolved(args[0]@, cwd@) == Err::<TargetView, Error>(e),
            },
            forall|j: int|
                0 <= j < plan.len() ==> planned(#[trigger] plan[j]) == deletion_in(
                    resolved(args[0]@, cwd@),
                    args[j + 1]@,
                ),
        decreases args.len() - i,
    {
        let step = match locate(&target, args[i].as_str()) {
            Ok((path, true)) => Ok(FsAction::RemoveDirectory(path)),
            Ok((path, false)) => Ok(FsAction::RemoveFile(path)),
            Err(e) => Err(e),
        };
        plan.push(step);
        i = i + 1;
    }
    plan
}

} // verus!
