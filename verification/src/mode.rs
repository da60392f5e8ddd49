//! Interaction mode, pane and detail-field cursor of the terminal view.
//!
//! `Normal` is browsing; `Insert` is text entry for creating or editing a
//! field; `Confirm` asks before an impactful action; `Help` shows the key
//! bindings over whatever mode it was opened from. The Detail pane is a
//! sub-state of `Normal`, not a mode of its own.

use vstd::prelude::*;

use crate::ids::TaskId;

verus! {

/// The current interaction mode.
#[derive(Debug, PartialEq)]
pub enum Mode {
    Normal,
    Insert { field: EditableField, buffer: String },
    /// A prompt for a destructive or impactful action: `y` runs `action`,
    /// `n` or `Esc` cancels.
    Confirm { prompt: String, action: PendingAction },
    /// The key-binding overlay, restoring `previous` when closed.
    Help { previous: Box<Mode> },
}

/// An action waiting for confirmation.
#[derive(Debug, Clone, Copy, PartialEq, Eq, Structural)]
pub enum PendingAction {
    /// Delete a task that has no children.
    Delete(TaskId),
    /// Delete a task that has children (which asks how to treat them).
    DeleteWithChildren(TaskId),
    /// Complete a task together with its incomplete descendants.
    CompleteCascade(TaskId),
    /// Copy the assignee and dates of `parent` onto the new subtask `child`.
    InheritFromParent { child: TaskId, parent: TaskId },
}

/// Which pane has the focus in `Mode::Normal`.
#[derive(Debug, Clone, Copy, PartialEq, Eq, Structural, Default)]
pub enum Pane {
    #[default]
    List,
    Detail,
}

/// Which field has the cursor in the Detail pane.
#[derive(Debug, Clone, Copy, PartialEq, Eq, Structural, Default)]
pub enum DetailField {
    #[default]
    Title,
    Description,
}

/// A field `Mode::Insert` edits.
#[derive(Debug, Clone, Copy, PartialEq, Eq, Structural)]
pub enum EditableField {
    /// A new top-level task's title.
    NewTitle,
    /// An existing task's title.
    Title(TaskId),
    /// An existing task's description.
    Description(TaskId),
    /// A new subtask's title, under the given parent.
    NewSubtaskTitle(TaskId),
    /// The given task's parents, as comma-separated ids.
    Parents(TaskId),
    /// The given task's type key.
    TypeKey(TaskId),
}

/// The mathematical value of a `Mode`: its texts as character sequences.
pub enum ModeView {
    Normal,
    Insert { field: EditableField, buffer: Seq<char> },
    Confirm { prompt: Seq<char>, action: PendingAction },
    Help { previous: Box<ModeView> },
}

pub open spec fn mode_view(m: Mode) -> ModeView
    decreases m,
{
    match m {
        Mode::Normal => ModeView::Normal,
        Mode::Insert { field, buffer } => ModeView::Insert { field, buffer: buffer@ },
        Mode::Confirm { prompt, action } => ModeView::Confirm { prompt: prompt@, action },
        Mode::Help { previous } => ModeView::Help { previous: Box::new(mode_view(*previous)) },
    }
}

impl View for Mode {
    type V = ModeView;

    open spec fn view(&self) -> ModeView {
        mode_view(*self)
    }
}

impl Clone for Mode {
    fn clone(&self) -> (r: Mode)
        ensures
            r@ == self@,
        decreases self,
    {
        match self {
            Mode::Normal => Mode::Normal,
            Mode::Insert { field, buffer } => Mode::Insert { field: *field, buffer: buffer.clone() },
            Mode::Confirm { prompt, action } => Mode::Confirm { prompt: prompt.clone(), action: *action },
            Mode::Help { previous } => {
                let p: &Mode = previous;
                Mode::Help { previous: Box::new(p.clone()) }
            },
        }
    }
}

} // verus!
