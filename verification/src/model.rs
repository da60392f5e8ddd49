//! Shared domain types: users, tasks, task types, the inputs of task creation
//! and editing, and their mathematical views.

use vstd::prelude::*;

use crate::ids::{Date, TaskId, Timestamp, UserId};

verus! {

/// Whether a task is done.
#[derive(Clone, Copy, PartialEq, Eq, Structural, Debug, Hash)]
pub enum TaskStatus {
    Incomplete,
    Complete,
}

/// A task's progress as a fraction `complete / total`, computed by the
/// library and never stored: a task without children counts itself (`1/1`
/// when complete, `0/1` otherwise); a task with children counts its direct
/// children that are complete over all its direct children.
#[derive(Clone, Copy, PartialEq, Eq, Structural, Debug, Hash)]
pub struct Progress {
    pub complete: u64,
    pub total: u64,
}

/// The progress a stored row carries before the library computes it (`0/1`).
pub open spec fn unset_progress() -> Progress {
    Progress { complete: 0, total: 1 }
}

pub open spec fn opt_text(o: Option<String>) -> Option<Seq<char>> {
    match o {
        Some(s) => Some(s@),
        None => None,
    }
}

/// Minimal user identity for task assignment.
#[derive(Clone, Debug, PartialEq)]
pub struct User {
    pub id: UserId,
    pub name: String,
}

pub struct UserView {
    pub id: UserId,
    pub name: Seq<char>,
}

impl View for User {
    type V = UserView;

    open spec fn view(&self) -> UserView {
        UserView { id: self.id, name: self.name@ }
    }
}

impl User {
    /// The same user, field by field, in a new value.
    pub fn duplicate(&self) -> (r: User)
        ensures
            r@ == self@,
    {
        User { id: self.id, name: self.name.clone() }
    }
}

/// A task as stored and returned by the library.
#[derive(Clone, Debug, PartialEq)]
pub struct Task {
    pub id: TaskId,
    pub title: String,
    pub description: Option<String>,
    /// The parents the task sits under; empty means top level.
    pub parent_ids: Vec<TaskId>,
    /// Key of the task's `TaskType`; `"task"` by default.
    pub type_key: String,
    pub status: TaskStatus,
    pub progress: Progress,
    pub start_date: Option<Date>,
    pub due_date: Option<Date>,
    /// `None` means unassigned.
    pub assignee_id: Option<UserId>,
    pub created_at: Timestamp,
    pub updated_at: Timestamp,
    /// `Some` means soft-deleted.
    pub deleted_at: Option<Timestamp>,
    /// `Some` once the task was completed.
    pub completed_at: Option<Timestamp>,
}

pub struct TaskView {
    pub id: TaskId,
    pub title: Seq<char>,
    pub description: Option<Seq<char>>,
    pub parent_ids: Seq<TaskId>,
    pub type_key: Seq<char>,
    pub status: TaskStatus,
    pub progress: Progress,
    pub start_date: Option<Date>,
    pub due_date: Option<Date>,
    pub assignee_id: Option<UserId>,
    pub created_at: Timestamp,
    pub updated_at: Timestamp,
    pub deleted_at: Option<Timestamp>,
    pub completed_at: Option<Timestamp>,
}

impl View for Task {
    type V = TaskView;

    open spec fn view(&self) -> TaskView {
        TaskView {
            id: self.id,
            title: self.title@,
            description: opt_text(self.description),
            parent_ids: self.parent_ids@,
            type_key: self.type_key@,
            status: self.status,
            progress: self.progress,
            start_date: self.start_date,
            due_date: self.due_date,
            assignee_id: self.assignee_id,
            created_at: self.created_at,
            updated_at: self.updated_at,
            deleted_at: self.deleted_at,
            completed_at: self.completed_at,
        }
    }
}

/// A copy of a list of ids.
pub fn copy_ids(v: &Vec<TaskId>) -> (r: Vec<TaskId>)
    ensures
        r@ == v@,
{
    let mut r: Vec<TaskId> = Vec::new();
    let mut i: usize = 0;
    while i < v.len()
        invariant
            i <= v.len(),
            r@ == v@.subrange(0, i as int),
        decreases v.len() - i,
    {
        r.push(v[i]);
        assert(v@.subrange(0, i + 1) == v@.subrange(0, i as int).push(v@[i as int]));
        i = i + 1;
    }
    assert(v@.subrange(0, v.len() as int) == v@);
    r
}

/// A copy of an optional text.
pub fn copy_opt_text(o: &Option<String>) -> (r: Option<String>)
    ensures
        opt_text(r) == opt_text(*o),
{
    match o {
        Some(s) => Some(s.clone()),
        None => None,
    }
}

impl Task {
    /// The same task, field by field, in a new value.
    pub fn duplicate(&self) -> (r: Task)
        ensures
            r@ == self@,
    {
        Task {
            id: self.id,
            title: self.title.clone(),
            description: copy_opt_text(&self.description),
            parent_ids: copy_ids(&self.parent_ids),
            type_key: self.type_key.clone(),
            status: self.status,
            progress: self.progress,
            start_date: self.start_date,
            due_date: self.due_date,
            assignee_id: self.assignee_id,
            created_at: self.created_at,
            updated_at: self.updated_at,
            deleted_at: self.deleted_at,
            completed_at: self.completed_at,
        }
    }
}

/// How a deleted task's children are treated.
#[derive(Clone, Copy, PartialEq, Eq, Structural, Debug, Hash)]
pub enum DeleteMode {
    /// Tombstone the task, and every child left with no other parent, at
    /// every depth.
    Subtree,
    /// Tombstone only the task; its children move to its own parents (or to
    /// the top level when it had none).
    PromoteChildren,
}

/// Input to task creation.
#[derive(Clone, Debug, PartialEq)]
pub struct NewTask {
    pub title: String,
    pub description: Option<String>,
    pub parent_ids: Vec<TaskId>,
    /// `None` means the default `"task"` type.
    pub type_key: Option<String>,
    pub start_date: Option<Date>,
    pub due_date: Option<Date>,
    /// `None` means unassigned; `Some` must name an existing user.
    pub assignee_id: Option<UserId>,
}

/// A configurable task type, e.g. "initiative" or "task".
#[derive(Clone, Debug, PartialEq)]
pub struct TaskType {
    /// Stable identifier, e.g. `"initiative"`.
    pub key: String,
    /// Display name.
    pub label: String,
    pub color: Option<String>,
    pub sort_order: i32,
}

pub struct TaskTypeView {
    pub key: Seq<char>,
    pub label: Seq<char>,
    pub color: Option<Seq<char>>,
    pub sort_order: i32,
}

impl View for TaskType {
    type V = TaskTypeView;

    open spec fn view(&self) -> TaskTypeView {
        TaskTypeView {
            key: self.key@,
            label: self.label@,
            color: opt_text(self.color),
            sort_order: self.sort_order,
        }
    }
}

impl TaskType {
    /// The same task type, field by field, in a new value.
    pub fn duplicate(&self) -> (r: TaskType)
        ensures
            r@ == self@,
    {
        TaskType {
            key: self.key.clone(),
            label: self.label.clone(),
            color: copy_opt_text(&self.color),
            sort_order: self.sort_order,
        }
    }
}

/// Filter over tasks; all fields are ANDed, `None`/`false` filters nothing.
#[derive(Clone, Debug, Default, PartialEq)]
pub struct TreeFilter {
    pub type_key: Option<String>,
    pub status: Option<TaskStatus>,
    pub assignee_id: Option<UserId>,
    /// `false` (default) leaves soft-deleted tasks out.
    pub include_deleted: bool,
}

/// Whether `t` passes `f`.
pub open spec fn filter_admits(f: TreeFilter, t: TaskView) -> bool {
    &&& (f.type_key matches Some(k) ==> t.type_key == k@)
    &&& (f.status matches Some(s) ==> t.status == s)
    &&& (f.assignee_id matches Some(a) ==> t.assignee_id == Some(a))
    &&& (f.include_deleted || t.deleted_at is None)
}

/// One field of a `TaskPatch`: leave it, set it, or clear it.
#[derive(Clone, Debug, Default, PartialEq, Eq)]
pub enum Field<T> {
    /// Leave the field as it is.
    #[default]
    Keep,
    /// Set the field to this value.
    Assign(T),
    /// Clear the field (only meaningful for optional fields).
    Clear,
}

/// Input to task editing; every field defaults to `Field::Keep`.
#[derive(Clone, Debug, Default, PartialEq)]
pub struct TaskPatch {
    pub title: Field<String>,
    /// `Clear` removes the description.
    pub description: Field<String>,
    /// `Clear` removes the start date.
    pub start_date: Field<Date>,
    /// `Clear` removes the due date.
    pub due_date: Field<Date>,
    /// `Clear` unassigns the task.
    pub assignee_id: Field<UserId>,
    pub type_key: Field<String>,
}

/// The complete set of parents a task sits under.
#[derive(Clone, Debug, PartialEq, Eq)]
pub enum Parents {
    /// No parent: the task is at the top level.
    TopLevel,
    /// One or more parents.
    Under(Vec<TaskId>),
}

/// The parent ids a `Parents` value names (empty for `TopLevel`).
pub open spec fn parents_ids(p: Parents) -> Seq<TaskId> {
    match p {
        Parents::TopLevel => seq![],
        Parents::Under(ids) => ids@,
    }
}

impl Parents {
    /// `TopLevel` for an empty list, `Under` otherwise.
    pub fn from_ids(ids: Vec<TaskId>) -> (r: Parents)
        ensures
            ids@.len() == 0 ==> r == Parents::TopLevel,
            ids@.len() > 0 ==> (r matches Parents::Under(v) && v@ == ids@),
    {
        if ids.len() == 0 {
            Parents::TopLevel
        } else {
            Parents::Under(ids)
        }
    }

    /// The parent ids; empty for `TopLevel`.
    pub fn ids(&self) -> (r: Vec<TaskId>)
        ensures
            r@ == parents_ids(*self),
    {
        match self {
            Parents::TopLevel => Vec::new(),
            Parents::Under(ids) => copy_ids(ids),
        }
    }
}

/// Where a re-parented task lands among its new siblings.
#[derive(Clone, Copy, PartialEq, Eq, Structural, Debug)]
pub enum Placement {
    /// After all existing siblings.
    End,
    /// Right after the given sibling, in each newly added parent whose
    /// children include it; otherwise at the end.
    After(TaskId),
}

/// Which way a task moves among its siblings.
#[derive(Clone, Copy, PartialEq, Eq, Structural, Debug, Hash)]
pub enum Direction {
    /// Toward the front (earlier).
    Up,
    /// Toward the back (later).
    Down,
}

/// The sibling order of every live task, by parent (`None` = the top
/// level): each entry a parent and its children in order.
#[derive(Clone, Debug, Default, PartialEq)]
pub struct SiblingOrder {
    entries: Vec<(Option<TaskId>, Vec<TaskId>)>,
}

pub open spec fn order_views(es: Seq<(Option<TaskId>, Vec<TaskId>)>) -> Seq<(Option<TaskId>, Seq<TaskId>)> {
    es.map_values(|e: (Option<TaskId>, Vec<TaskId>)| (e.0, e.1@))
}

/// The children the first entry for `parent` at or after `i` lists; none
/// when no entry is for it.
pub open spec fn children_in_order(es: Seq<(Option<TaskId>, Seq<TaskId>)>, parent: Option<TaskId>, i: int) -> Seq<
    TaskId,
>
    decreases es.len() - i,
{
    if i < 0 || i >= es.len() {
        seq![]
    } else if es[i].0 == parent {
        es[i].1
    } else {
        children_in_order(es, parent, i + 1)
    }
}

impl View for SiblingOrder {
    type V = Seq<(Option<TaskId>, Seq<TaskId>)>;

    closed spec fn view(&self) -> Seq<(Option<TaskId>, Seq<TaskId>)> {
        order_views(self.entries@)
    }
}

impl SiblingOrder {
    /// The order given as parent and children entries.
    pub fn from_entries(entries: Vec<(Option<TaskId>, Vec<TaskId>)>) -> (o: SiblingOrder)
        ensures
            o@ == order_views(entries@),
    {
        SiblingOrder { entries }
    }

    /// The children of `parent` in order (`None`: the top level); empty when
    /// it has none.
    pub fn children_of(&self, parent: Option<TaskId>) -> (r: Vec<TaskId>)
        ensures
            r@ == children_in_order(self@, parent, 0),
    {
        let ghost es = self@;
        let mut i: usize = 0;
        while i < self.entries.len()
            invariant
                i <= self.entries.len(),
                es == order_views(self.entries@),
                children_in_order(es, parent, 0) == children_in_order(es, parent, i as int),
            decreases self.entries.len() - i,
        {
            assert(es[i as int] == (self.entries@[i as int].0, self.entries@[i as int].1@));
            if self.entries[i].0 == parent {
                return copy_ids(&self.entries[i].1);
            }
            i = i + 1;
        }
        Vec::new()
    }
}

} // verus!
