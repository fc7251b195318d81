//! The operations that the journal records: what kind each is, when it is
//! recorded, and whether it can be taken back.

use vstd::prelude::*;
use crate::path::copy_names;
use crate::text::texts;

verus! {

/// The kind of an operation that changes the file system.
#[derive(Debug, Clone, Copy, PartialEq, Eq, Structural)]
pub enum OperationKind {
    /// Files or directories were created.
    Create,
    /// Files or directories were deleted for good.
    Delete,
    /// Entries were created inside a directory.
    CreateIn,
    /// Entries were deleted for good inside a directory.
    DeleteIn,
    /// Files or directories were thrown into the trash.
    Trash,
    /// A file was moved.
    Move,
    /// A file or directory was given another name.
    Rename,
}

/// When an operation is recorded, relative to the change that it makes.
#[derive(Debug, Clone, Copy, PartialEq, Eq, Structural)]
pub enum PushTiming {
    /// Before the change: the record shows the intent even where the change
    /// then fails.
    Before,
    /// After the change has succeeded: only what exists can be undone.
    After,
}

/// When an operation of the given kind is recorded: what creates is
/// recorded after it has succeeded, everything else before it begins.
pub open spec fn timing_of(kind: OperationKind) -> PushTiming {
    match kind {
        OperationKind::Create | OperationKind::CreateIn => PushTiming::After,
        OperationKind::Delete
        | OperationKind::DeleteIn
        | OperationKind::Trash
        | OperationKind::Move
        | OperationKind::Rename => PushTiming::Before,
    }
}

/// Whether an operation of the given kind can be taken back. What was
/// deleted for good cannot: nothing was kept of it.
pub open spec fn reversible(kind: OperationKind) -> bool {
    !(kind is Delete || kind is DeleteIn)
}

/// How many arguments an operation of the given kind needs at least: a
/// directory and an entry where it works inside a directory, the old and
/// the new name where it renames, else one path.
pub open spec fn least_args(kind: OperationKind) -> int {
    if kind is CreateIn || kind is DeleteIn || kind is Rename {
        2
    } else {
        1
    }
}

/// When an operation of the given kind is recorded: see [`timing_of`].
pub fn push_timing(kind: OperationKind) -> (timing: PushTiming)
    ensures
        timing == timing_of(kind),
{
    match kind {
        OperationKind::Create | OperationKind::CreateIn => PushTiming::After,
        OperationKind::Delete
        | OperationKind::DeleteIn
        | OperationKind::Trash
        | OperationKind::Move
        | OperationKind::Rename => PushTiming::Before,
    }
}

/// Whether an operation of the given kind can be taken back: see
/// [`reversible`].
pub fn is_reversible(kind: OperationKind) -> (yes: bool)
    ensures
        yes == reversible(kind),
{
    match kind {
        OperationKind::Delete | OperationKind::DeleteIn => false,
        _ => true,
    }
}

/// One operation: its kind and the arguments it was called with, in order.
#[derive(Debug, PartialEq, Eq)]
pub struct Operation {
    pub kind: OperationKind,
    pub args: Vec<String>,
}

/// What an [`Operation`] stands for.
pub struct OperationView {
    pub kind: OperationKind,
    pub args: Seq<Seq<char>>,
}

impl OperationView {
    /// The operation has the arguments that its kind needs.
    pub open spec fn valid(self) -> bool {
        self.args.len() >= least_args(self.kind)
    }
}

impl View for Operation {
    type V = OperationView;

    open spec fn view(&self) -> OperationView {
        OperationView { kind: self.kind, args: texts(self.args@) }
    }
}

impl Clone for Operation {
    fn clone(&self) -> (copy: Operation)
        ensures
            copy@ == self@,
    {
        let args = copy_names(&self.args, 0, self.args.len());
        proof {
            assert(texts(self.args@).subrange(0, self.args.len() as int) =~= texts(self.args@));
        }
        Operation { kind: self.kind, args }
    }
}

impl Operation {
    /// An operation of the given kind on the given arguments.
    pub fn new(kind: OperationKind, args: Vec<String>) -> (operation: Operation)
        ensures
            operation@ == (OperationView { kind, args: texts(args@) }),
    {
        Operation { kind, args }
    }

    /// Whether the operation has the arguments that its kind needs.
    pub fn is_valid(&self) -> (yes: bool)
        ensures
            yes == self@.valid(),
    {
        match self.kind {
            OperationKind::CreateIn | OperationKind::DeleteIn | OperationKind::Rename => {
                self.args.len() >= 2
            },
            _ => self.args.len() >= 1,
        }
    }
}

} // verus!
