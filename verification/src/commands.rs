//! The commands of the tool, each as a plan: which steps to take on the file
//! system for the arguments that were given.

use vstd::prelude::*;
use crate::action::{actions_view, planned, ActionView, FsAction};
use crate::error::Error;
use crate::number::{parse_small, small_number};
use crate::operation::OperationKind;
use crate::path::{resolve, resolved, Path, PathView, TargetView};
use crate::text::texts;

verus! {

/// What the command line asks for.
#[derive(Debug, Clone, Copy, PartialEq, Eq, Structural)]
pub enum InputType {
    DeleteIn,
    CreateIn,
    Del,
    Create,
    Trash,
    Undo,
    Show,
    Rename,
    Move,
    List,
    Open,
}

/// Which options the command line holds.
#[derive(Debug, Clone, Copy, Default)]
pub struct Flags {
    /// How many plain arguments were given: the files to create.
    pub targets: usize,
    /// Deleting entries inside a directory was asked for.
    pub delete_in: bool,
    /// Deleting was asked for.
    pub delete: bool,
    /// Creating entries inside a directory was asked for.
    pub create_in: bool,
    /// Trashing was asked for.
    pub trash: bool,
    /// Undoing the last operation was asked for.
    pub undo: bool,
    /// Showing the journal was asked for.
    pub show: bool,
    /// Listing the working directory was asked for.
    pub list: bool,
    /// Renaming was asked for, with this many names.
    pub rename: Option<usize>,
    /// Moving was asked for.
    pub move_file: bool,
    /// Opening a file was asked for.
    pub open: bool,
}

/// The command that `flags` select. Where several options are given, the
/// first in this order wins: deleting inside a directory, deleting, creating
/// inside a directory, trashing, creating, undoing, showing, listing,
/// renaming, moving, opening. Renaming takes exactly two names. Without any
/// option there is no command.
pub open spec fn selected(flags: Flags) -> Option<InputType> {
    if flags.delete_in {
        Some(InputType::DeleteIn)
    } else if flags.delete {
        Some(InputType::Del)
    } else if flags.create_in {
        Some(InputType::CreateIn)
    } else if flags.trash {
        Some(InputType::Trash)
    } else if flags.targets > 0 {
        Some(InputType::Create)
    } else if flags.undo {
        Some(InputType::Undo)
    } else if flags.show {
        Some(InputType::Show)
    } else if flags.list {
        Some(InputType::List)
    } else if flags.rename.is_some() {
        if flags.rename == Some(2usize) {
            Some(InputType::Rename)
        } else {
            None
        }
    } else if flags.move_file {
        Some(InputType::Move)
    } else if flags.open {
        Some(InputType::Open)
    } else {
        None
    }
}

/// Selects the command for the options that were given: see [`selected`].
pub fn input_type(flags: &Flags) -> (command: Option<InputType>)
    ensures
        command == selected(*flags),
{
    if flags.delete_in {
        Some(InputType::DeleteIn)
    } else if flags.delete {
        Some(InputType::Del)
    } else if flags.create_in {
        Some(InputType::CreateIn)
    } else if flags.trash {
        Some(InputType::Trash)
    } else if flags.targets > 0 {
        Some(InputType::Create)
    } else if flags.undo {
        Some(InputType::Undo)
    } else if flags.show {
        Some(InputType::Show)
    } else if flags.list {
        Some(InputType::List)
    } else if let Some(count) = flags.rename {
        if count == 2 {
            Some(InputType::Rename)
        } else {
            None
        }
    } else if flags.move_file {
        Some(InputType::Move)
    } else if flags.open {
        Some(InputType::Open)
    } else {
        None
    }
}

/// The kind of operation that a command carries out and records; none for
/// the commands that change nothing on the file system.
pub open spec fn kind_of_command(command: InputType) -> Option<OperationKind> {
    match command {
        InputType::DeleteIn => Some(OperationKind::DeleteIn),
        InputType::CreateIn => Some(OperationKind::CreateIn),
        InputType::Del => Some(OperationKind::Delete),
        InputType::Create => Some(OperationKind::Create),
        InputType::Trash => Some(OperationKind::Trash),
        InputType::Rename => Some(OperationKind::Rename),
        InputType::Move => Some(OperationKind::Move),
        InputType::Undo | InputType::Show | InputType::List | InputType::Open => None,
    }
}

/// The kind of operation that a command carries out: see
/// [`kind_of_command`].
pub fn operation_kind(command: InputType) -> (kind: Option<OperationKind>)
    ensures
        kind == kind_of_command(command),
{
    match command {
        InputType::DeleteIn => Some(OperationKind::DeleteIn),
        InputType::CreateIn => Some(OperationKind::CreateIn),
        InputType::Del => Some(OperationKind::Delete),
        InputType::Create => Some(OperationKind::Create),
        InputType::Trash => Some(OperationKind::Trash),
        InputType::Rename => Some(OperationKind::Rename),
        InputType::Move => Some(OperationKind::Move),
        InputType::Undo | InputType::Show | InputType::List | InputType::Open => None,
    }
}

/// The step that creates what `target` names: a directory where it is marked
/// as one, else a file.
pub open spec fn creation(target: Result<TargetView, Error>) -> Result<ActionView, Error> {
    match target {
        Err(e) => Err(e),
        Ok(t) => Ok(
            if t.directory {
                ActionView::CreateDirectory(t.path)
            } else {
                ActionView::CreateFile(t.path)
            },
        ),
    }
}

/// The step that deletes what `target` names: a directory with all that it
/// holds where it is marked as one, else a file.
pub open spec fn deletion(target: Result<TargetView, Error>) -> Result<ActionView, Error> {
    match target {
        Err(e) => Err(e),
        Ok(t) => Ok(
            if t.directory {
                ActionView::RemoveDirectory(t.path)
            } else {
                ActionView::RemoveFile(t.path)
            },
        ),
    }
}

/// Plans the creation of one file or directory for each argument, in order.
/// A step is an error where the argument names no path.
pub fn create_files(args: &Vec<String>, cwd: &Path) -> (plan: Vec<Result<FsAction, Error>>)
    ensures
        plan.len() == args.len(),
        forall|i: int|
            0 <= i < plan.len() ==> planned(#[trigger] plan[i]) == creation(
                resolved(args[i]@, cwd@),
            ),
{
    let mut plan: Vec<Result<FsAction, Error>> = Vec::new();
    let mut i: usize = 0;
    while i < args.len()
        invariant
            i <= args.len(),
            plan.len() == i,
            forall|j: int|
                0 <= j < plan.len() ==> planned(#[trigger] plan[j]) == creation(
                    resolved(args[j]@, cwd@),
                ),
        decreases args.len() - i,
    {
        let step = match resolve(args[i].as_str(), cwd) {
            Ok(target) => if target.directory {
                Ok(FsAction::CreateDirectory(target.path))
            } else {
                Ok(FsAction::CreateFile(target.path))
            },
            Err(e) => Err(e),
        };
        plan.push(step);
        i = i + 1;
    }
    plan
}

/// Plans the deletion of one file or directory for each argument, in order.
/// A step is an error where the argument names no path.
pub fn delete_files(args: &Vec<String>, cwd: &Path) -> (plan: Vec<Result<FsAction, Error>>)
    ensures
        plan.len() == args.len(),
        forall|i: int|
            0 <= i < plan.len() ==> planned(#[trigger] plan[i]) == deletion(
                resolved(args[i]@, cwd@),
            ),
{
    let mut plan: Vec<Result<FsAction, Error>> = Vec::new();
    let mut i: usize = 0;
    while i < args.len()
        invariant
            i <= args.len(),
            plan.len() == i,
            forall|j: int|
                0 <= j < plan.len() ==> planned(#[trigger] plan[j]) == deletion(
                    resolved(args[j]@, cwd@),
                ),
        decreases args.len() - i,
    {
        let step = match resolve(args[i].as_str(), cwd) {
            Ok(target) => if target.directory {
                Ok(FsAction::RemoveDirectory(target.path))
            } else {
                Ok(FsAction::RemoveFile(target.path))
            },
            Err(e) => Err(e),
        };
        plan.push(step);
        i = i + 1;
    }
    plan
}

/// The step that renames: the first argument names what is renamed, the
/// second its new place. A renaming takes exactly these two arguments, and
/// each must name a path.
pub open spec fn renaming(args: Seq<Seq<char>>, cwd: PathView) -> Result<ActionView, Error> {
    if args.len() != 2 {
        Err(Error::InvalidPath)
    } else {
        match resolved(args[0], cwd) {
            Err(e) => Err(e),
            Ok(source) => match resolved(args[1], cwd) {
                Err(e) => Err(e),
                Ok(target) => Ok(ActionView::Rename(source.path, target.path)),
            },
        }
    }
}

/// The step that takes a renaming back: what stands at the new place gets
/// its old place again.
pub open spec fn renaming_back(args: Seq<Seq<char>>, cwd: PathView) -> Result<ActionView, Error> {
    match renaming(args, cwd) {
        Ok(ActionView::Rename(source, target)) => Ok(ActionView::Rename(target, source)),
        Ok(other) => Ok(other),
        Err(e) => Err(e),
    }
}

/// Plans a renaming: see [`renaming`].
pub fn rename_file(args: &Vec<String>, cwd: &Path) -> (step: Result<FsAction, Error>)
    ensures
        planned(step) == renaming(texts(args@), cwd@),
{
    if args.len() != 2 {
        return Err(Error::InvalidPath);
    }
    let source = match resolve(args[0].as_str(), cwd) {
        Ok(target) => target.path,
        Err(e) => {
            return Err(e);
        },
    };
    let target = match resolve(args[1].as_str(), cwd) {
        Ok(target) => target.path,
        Err(e) => {
            return Err(e);
        },
    };
    Ok(FsAction::Rename(source, target))
}

/// Plans the return from a renaming: see [`renaming_back`].
pub fn rename_back(args: &Vec<String>, cwd: &Path) -> (step: Result<FsAction, Error>)
    ensures
        planned(step) == renaming_back(texts(args@), cwd@),
{
    match rename_file(args, cwd) {
        Ok(FsAction::Rename(source, target)) => Ok(FsAction::Rename(target, source)),
        Ok(other) => Ok(other),
        Err(e) => Err(e),
    }
}

/// The directory that lies `levels` above `cwd`, or the topmost one where
/// `cwd` is not that deep; `cwd` itself where `levels` is not positive.
pub open spec fn raised(cwd: PathView, levels: int) -> PathView {
    if levels <= 0 {
        cwd
    } else if levels >= cwd.names.len() {
        cwd.ancestor(0)
    } else {
        cwd.ancestor(cwd.names.len() - levels)
    }
}

/// A file to move and the place it is to have.
#[derive(Debug, PartialEq, Eq)]
pub struct Relocation {
    /// The file as it is.
    pub source: Path,
    /// The directory that is to hold it.
    pub directory: Path,
    /// The file as it will be: under its own name in that directory.
    pub destination: Path,
    /// Whether the directory was given as a number of levels to go up.
    pub by_levels: bool,
}

/// What a [`Relocation`] stands for.
pub struct RelocationView {
    pub source: PathView,
    pub directory: PathView,
    pub destination: PathView,
    pub by_levels: bool,
}

impl View for Relocation {
    type V = RelocationView;

    open spec fn view(&self) -> RelocationView {
        RelocationView {
            source: self.source@,
            directory: self.directory@,
            destination: self.destination@,
            by_levels: self.by_levels,
        }
    }
}

/// Where the arguments of a move send which file.
///
/// The first argument names the file. The second names the directory that
/// is to hold it, or, where it is a small number, how many levels above the
/// working directory that directory lies. A move needs both arguments, and
/// each must name a path.
pub open spec fn relocation(args: Seq<Seq<char>>, cwd: PathView) -> Result<
    RelocationView,
    Error,
> {
    if args.len() < 2 {
        Err(Error::InvalidPath)
    } else {
        match resolved(args[0], cwd) {
            Err(e) => Err(e),
            Ok(source) => match small_number(args[1]) {
                Some(levels) => Ok(
                    RelocationView {
                        source: source.path,
                        directory: raised(cwd, levels as int),
                        destination: raised(cwd, levels as int).child(source.path.names.last()),
                        by_levels: true,
                    },
                ),
                None => match resolved(args[1], cwd) {
                    Err(e) => Err(e),
                    Ok(directory) => Ok(
                        RelocationView {
                            source: source.path,
                            directory: directory.path,
                            destination: directory.path.child(source.path.names.last()),
                            by_levels: false,
                        },
                    ),
                },
            },
        }
    }
}

/// Reads the arguments of a move: see [`relocation`].
pub fn relocate(args: &Vec<String>, cwd: &Path) -> (outcome: Result<Relocation, Error>)
    ensures
        match outcome {
            Ok(r) => relocation(texts(args@), cwd@) == Ok::<RelocationView, Error>(r@),
            Err(e) => relocation(texts(args@), cwd@) == Err::<RelocationView, Error>(e),
        },
{
    if args.len() < 2 {
        return Err(Error::InvalidPath);
    }
    let source = match resolve(args[0].as_str(), cwd) {
        Ok(target) => target.path,
        Err(e) => {
            return Err(e);
        },
    };
    let last: usize = source.names.len() - 1;
    match parse_small(args[1].as_str()) {
        Some(levels) => {
            let depth: usize = cwd.depth();
            let keep: usize = if levels <= 0 {
                depth
            } else if levels as usize >= depth {
                0
            } else {
                depth - levels as usize
            };
            let directory = cwd.ancestor(keep);
            proof {
                if levels <= 0 {
                    assert(cwd@.names.take(depth as int) =~= cwd@.names);
                }
            }
            let destination = directory.child(source.names[last].as_str());
            Ok(Relocation { source, directory, destination, by_levels: true })
        },
        None => {
            let directory = match resolve(args[1].as_str(), cwd) {
                Ok(target) => target.path,
                Err(e) => {
                    return Err(e);
                },
            };
            let destination = directory.child(source.names[last].as_str());
            Ok(Relocation { source, directory, destination, by_levels: false })
        },
    }
}

/// The steps of a move, given what was found on the file system: whether
/// the file exists and whether the directory does.
///
/// A directory that was named and is missing is created first. Then, if the
/// file exists, it is created at its destination, its bytes are copied
/// there, and it is removed where it was.
pub open spec fn move_steps(
    r: RelocationView,
    source_exists: bool,
    directory_exists: bool,
) -> Seq<ActionView> {
    let prepare = if !r.by_levels && !directory_exists {
        seq![ActionView::CreateDirectory(r.directory)]
    } else {
        Seq::empty()
    };
    let transfer = if source_exists {
        seq![
            ActionView::CreateFile(r.destination),
            ActionView::CopyBytes(r.source, r.destination),
            ActionView::RemoveFile(r.source),
        ]
    } else {
        Seq::empty()
    };
    prepare + transfer
}

/// Plans a move: see [`move_steps`].
pub fn plan_move(r: &Relocation, source_exists: bool, directory_exists: bool) -> (plan: Vec<
    FsAction,
>)
    ensures
        actions_view(plan@) == move_steps(r@, source_exists, directory_exists),
{
    let mut plan: Vec<FsAction> = Vec::new();
    if !r.by_levels && !directory_exists {
        plan.push(FsAction::CreateDirectory(r.directory.clone()));
    }
    if source_exists {
        plan.push(FsAction::CreateFile(r.destination.clone()));
        plan.push(FsAction::CopyBytes(r.source.clone(), r.destination.clone()));
        plan.push(FsAction::RemoveFile(r.source.clone()));
    }
    proof {
        assert(actions_view(plan@) =~= move_steps(r@, source_exists, directory_exists));
    }
    plan
}

/// The steps that take a moved file back: its bytes are copied from where
/// it is now to where it was, and then it is removed where it is now.
pub open spec fn move_back_steps(r: RelocationView) -> Seq<ActionView> {
    seq![ActionView::CopyBytes(r.destination, r.source), ActionView::RemoveFile(r.destination)]
}

/// Plans the return of a moved file: see [`move_back_steps`].
pub fn plan_move_back(r: &Relocation) -> (plan: Vec<FsAction>)
    ensures
        actions_view(plan@) == move_back_steps(r@),
{
    let mut plan: Vec<FsAction> = Vec::new();
    plan.push(FsAction::CopyBytes(r.destination.clone(), r.source.clone()));
    plan.push(FsAction::RemoveFile(r.destination.clone()));
    proof {
        assert(actions_view(plan@) =~= move_back_steps(r@));
    }
    plan
}

/// One line of a directory listing: a mark for the kind of entry, a space,
/// and the entry's name.
pub open spec fn listing_text(name: Seq<char>, directory: bool) -> Seq<char> {
    (if directory {
        "<DIRECTORY>"@
    } else {
        "     <FILE>"@
    }) + " "@ + name
}

/// Writes one line of a directory listing: see [`listing_text`].
pub fn listing_line(name: &str, directory: bool) -> (line: String)
    ensures
        line@ == listing_text(name@, directory),
{
    let mut line = String::new();
    if directory {
        line.append("<DIRECTORY>");
    } else {
        line.append("     <FILE>");
    }
    line.append(" ");
    line.append(name);
    proof {
        assert(line@ =~= listing_text(name@, directory));
    }
    line
}

} // verus!
