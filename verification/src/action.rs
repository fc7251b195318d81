//! The steps that the tool asks of a file system. The library decides which
//! steps to take and in what order; whoever holds the file system carries
//! them out.

use vstd::prelude::*;
use crate::error::Error;
use crate::path::{anchored, rendered, Path, PathView};

verus! {

/// One step on the file system.
#[derive(Debug, PartialEq, Eq)]
pub enum FsAction {
    /// Create an empty file, or empty the file that is there.
    CreateFile(Path),
    /// Create a directory and every directory above it that is missing.
    CreateDirectory(Path),
    /// Remove a file.
    RemoveFile(Path),
    /// Remove a directory and all that it holds.
    RemoveDirectory(Path),
    /// Copy the bytes of the first file into the second.
    CopyBytes(Path, Path),
    /// Give the first path, with all below it, the second path as its new
    /// place. Nothing may stand at the new place.
    Rename(Path, Path),
}

/// What an [`FsAction`] stands for.
pub enum ActionView {
    CreateFile(PathView),
    CreateDirectory(PathView),
    RemoveFile(PathView),
    RemoveDirectory(PathView),
    CopyBytes(PathView, PathView),
    Rename(PathView, PathView),
}

impl View for FsAction {
    type V = ActionView;

    open spec fn view(&self) -> ActionView {
        match self {
            FsAction::CreateFile(p) => ActionView::CreateFile(p@),
            FsAction::CreateDirectory(p) => ActionView::CreateDirectory(p@),
            FsAction::RemoveFile(p) => ActionView::RemoveFile(p@),
            FsAction::RemoveDirectory(p) => ActionView::RemoveDirectory(p@),
            FsAction::CopyBytes(from, to) => ActionView::CopyBytes(from@, to@),
            FsAction::Rename(from, to) => ActionView::Rename(from@, to@),
        }
    }
}

impl Clone for FsAction {
    fn clone(&self) -> (copy: FsAction)
        ensures
            copy@ == self@,
    {
        match self {
            FsAction::CreateFile(p) => FsAction::CreateFile(p.clone()),
            FsAction::CreateDirectory(p) => FsAction::CreateDirectory(p.clone()),
            FsAction::RemoveFile(p) => FsAction::RemoveFile(p.clone()),
            FsAction::RemoveDirectory(p) => FsAction::RemoveDirectory(p.clone()),
            FsAction::CopyBytes(from, to) => FsAction::CopyBytes(from.clone(), to.clone()),
            FsAction::Rename(from, to) => FsAction::Rename(from.clone(), to.clone()),
        }
    }
}

/// The step `a` with its paths as seen from the top of the tree.
pub open spec fn anchored_action(a: ActionView, cwd: PathView) -> ActionView {
    match a {
        ActionView::CreateFile(p) => ActionView::CreateFile(anchored(p, cwd)),
        ActionView::CreateDirectory(p) => ActionView::CreateDirectory(anchored(p, cwd)),
        ActionView::RemoveFile(p) => ActionView::RemoveFile(anchored(p, cwd)),
        ActionView::RemoveDirectory(p) => ActionView::RemoveDirectory(anchored(p, cwd)),
        ActionView::CopyBytes(from, to) => ActionView::CopyBytes(
            anchored(from, cwd),
            anchored(to, cwd),
        ),
        ActionView::Rename(from, to) => ActionView::Rename(anchored(from, cwd), anchored(to, cwd)),
    }
}

/// The step in words: what is done, and to which path.
pub open spec fn described(a: ActionView) -> Seq<char> {
    match a {
        ActionView::CreateFile(p) => "create file "@ + rendered(p),
        ActionView::CreateDirectory(p) => "create directory "@ + rendered(p),
        ActionView::RemoveFile(p) => "remove file "@ + rendered(p),
        ActionView::RemoveDirectory(p) => "remove directory "@ + rendered(p),
        ActionView::CopyBytes(from, to) => "copy "@ + rendered(from) + " to "@ + rendered(to),
        ActionView::Rename(from, to) => "rename "@ + rendered(from) + " to "@ + rendered(to),
    }
}

impl FsAction {
    /// The step in words, fit for a message to the user: see
    /// [`described`].
    pub fn describe(&self) -> (text: String)
        ensures
            text@ == described(self@),
    {
        let mut text = String::new();
        match self {
            FsAction::CreateFile(p) => {
                text.append("create file ");
                text.append(p.render().as_str());
            },
            FsAction::CreateDirectory(p) => {
                text.append("create directory ");
                text.append(p.render().as_str());
            },
            FsAction::RemoveFile(p) => {
                text.append("remove file ");
                text.append(p.render().as_str());
            },
            FsAction::RemoveDirectory(p) => {
                text.append("remove directory ");
                text.append(p.render().as_str());
            },
            FsAction::CopyBytes(from, to) => {
                text.append("copy ");
                text.append(from.render().as_str());
                text.append(" to ");
                text.append(to.render().as_str());
            },
            FsAction::Rename(from, to) => {
                text.append("rename ");
                text.append(from.render().as_str());
                text.append(" to ");
                text.append(to.render().as_str());
            },
        }
        proof {
            assert(text@ =~= described(self@));
        }
        text
    }

    /// The step with its paths as seen from the top of the tree: see
    /// [`anchored_action`].
    pub fn anchor(&self, cwd: &Path) -> (step: FsAction)
        ensures
            step@ == anchored_action(self@, cwd@),
    {
        match self {
            FsAction::CreateFile(p) => FsAction::CreateFile(p.anchor(cwd)),
            FsAction::CreateDirectory(p) => FsAction::CreateDirectory(p.anchor(cwd)),
            FsAction::RemoveFile(p) => FsAction::RemoveFile(p.anchor(cwd)),
            FsAction::RemoveDirectory(p) => FsAction::RemoveDirectory(p.anchor(cwd)),
            FsAction::CopyBytes(from, to) => FsAction::CopyBytes(from.anchor(cwd), to.anchor(cwd)),
            FsAction::Rename(from, to) => FsAction::Rename(from.anchor(cwd), to.anchor(cwd)),
        }
    }
}

/// Why a task on the file tree has failed: the reason, and the step that
/// was refused where the failure was the refusal of a step.
#[derive(Debug, PartialEq, Eq)]
pub struct Refusal {
    pub error: Error,
    pub step: Option<FsAction>,
}

/// What a [`Refusal`] stands for.
pub struct RefusalView {
    pub error: Error,
    pub step: Option<ActionView>,
}

impl View for Refusal {
    type V = RefusalView;

    open spec fn view(&self) -> RefusalView {
        RefusalView {
            error: self.error,
            step: match self.step {
                Some(a) => Some(a@),
                None => None,
            },
        }
    }
}

impl Refusal {
    /// The refusal of the step `action`.
    pub fn of_step(action: &FsAction) -> (refusal: Refusal)
        ensures
            refusal@ == (RefusalView { error: Error::IoFailure, step: Some(action@) }),
    {
        Refusal { error: Error::IoFailure, step: Some(action.clone()) }
    }

    /// A failure that is not the refusal of a step.
    pub fn plain(error: Error) -> (refusal: Refusal)
        ensures
            refusal@ == (RefusalView { error, step: None }),
    {
        Refusal { error, step: None }
    }
}

/// What a failed outcome says, and nothing for a success.
pub open spec fn refused(outcome: Result<(), Refusal>) -> Option<RefusalView> {
    match outcome {
        Ok(_) => None,
        Err(r) => Some(r@),
    }
}

/// What a planned step stands for: the step, or the reason why there is none.
pub open spec fn planned(step: Result<FsAction, Error>) -> Result<ActionView, Error> {
    match step {
        Ok(action) => Ok(action@),
        Err(e) => Err(e),
    }
}

/// The views of the actions in `actions`, in order.
pub open spec fn actions_view(actions: Seq<FsAction>) -> Seq<ActionView> {
    Seq::new(actions.len(), |i: int| actions[i]@)
}

} // verus!
