//! Selection and edit-mode state of the terminal task list.
//!
//! `App` tracks the selected row over the rendered rows, the interaction
//! mode, the focused pane, and any inline error to show. `apply_action` is
//! the one place that changes an `App`, calling through to `Core` for the
//! actions that need it. Selection clamps at both ends rather than wrapping.

use std::ops::ControlFlow;

use vstd::prelude::*;

use crate::error::{core_error_message, CoreError};
use crate::cli::{trim_end, trim_start, trim_text};
use crate::facade::{
    any_rows, completed_state, create_error, create_ok, created, delete_touched, deleted_state,
    first_missing, ids_of, live_rows, open_descendants, patched, reparented_edges, shown, shown_all,
    to_complete, update_error, update_ok, written, Core,
};
use crate::hierarchy::first_cycle;
use crate::ids::{uuid_from_text, Timestamp};
use crate::model::{DeleteMode, Field, NewTask, TaskPatch};
use crate::store::id_in_use;
use crate::ids::{TaskId, UserId};
use crate::keymap::{key_action, key_to_action, Action, KeyCode};
use crate::model::{Task, TaskStatus, TaskView, TreeFilter};
use crate::mode::{mode_view, DetailField, EditableField, Mode, ModeView, Pane, PendingAction};
use crate::render::{all_rows, lookups_of, row_views, task_rows, task_views, Lookups, RowView, TaskRow};
use crate::store::{listed, live_task, StoreView};
use crate::text::{append_text, owned};

verus! {

/// Selection state over the rows of the task list, the interaction mode,
/// and what the rows are rendered from.
pub struct App {
    rows: Vec<TaskRow>,
    selected: Option<usize>,
    mode: Mode,
    pane: Pane,
    detail_field: DetailField,
    error: Option<String>,
    type_labels: Vec<(String, String)>,
    user_names: Vec<(UserId, String)>,
    descriptions: Vec<(TaskId, Option<String>)>,
    /// Every task of the last fetch, collapsed or not; the rows are rendered
    /// from it.
    tasks: Vec<Task>,
    /// The tasks whose children are hidden, each once.
    collapsed: Vec<TaskId>,
    /// A first `d` waits for a second one.
    pending_d: bool,
}

pub struct AppView {
    pub rows: Seq<RowView>,
    pub selected: Option<int>,
    pub mode: ModeView,
    pub pane: Pane,
    pub detail_field: DetailField,
    pub error: Option<Seq<char>>,
    pub labels: Seq<(Seq<char>, Seq<char>)>,
    pub names: Seq<(UserId, Seq<char>)>,
    pub descriptions: Seq<(TaskId, Option<Seq<char>>)>,
    pub tasks: Seq<TaskView>,
    pub collapsed: Seq<TaskId>,
    pub pending_d: bool,
}

pub open spec fn opt_view(o: Option<String>) -> Option<Seq<char>> {
    match o {
        Some(s) => Some(s@),
        None => None,
    }
}

pub open spec fn desc_views(ds: Seq<(TaskId, Option<String>)>) -> Seq<(TaskId, Option<Seq<char>>)> {
    ds.map_values(|p: (TaskId, Option<String>)| (p.0, opt_view(p.1)))
}

impl View for App {
    type V = AppView;

    closed spec fn view(&self) -> AppView {
        let lk = lookups_of(self.type_labels@, self.user_names@, self.collapsed@);
        AppView {
            rows: row_views(self.rows@),
            selected: match self.selected {
                Some(i) => Some(i as int),
                None => None,
            },
            mode: self.mode@,
            pane: self.pane,
            detail_field: self.detail_field,
            error: opt_view(self.error),
            labels: lk.labels,
            names: lk.names,
            descriptions: desc_views(self.descriptions@),
            tasks: task_views(self.tasks@),
            collapsed: self.collapsed@,
            pending_d: self.pending_d,
        }
    }
}

/// The lookups the rows of `a` are rendered with.
pub open spec fn lookups(a: AppView) -> Lookups {
    Lookups { labels: a.labels, names: a.names, collapsed: a.collapsed }
}

/// The selected row, when the selection lies within the rows.
pub open spec fn sel_row(a: AppView) -> Option<RowView> {
    match a.selected {
        Some(i) => if 0 <= i < a.rows.len() {
            Some(a.rows[i])
        } else {
            None
        },
        None => None,
    }
}

/// The first row at or after `i` that shows task `id`.
pub open spec fn row_pos(rows: Seq<RowView>, id: TaskId, i: int) -> Option<int>
    decreases rows.len() - i,
{
    if i < 0 || i >= rows.len() {
        None
    } else if rows[i].id == id {
        Some(i)
    } else {
        row_pos(rows, id, i + 1)
    }
}

/// The selection after reselecting `id` among `rows`: the first row
/// showing it, else `sel` unchanged.
pub open spec fn reselect(rows: Seq<RowView>, id: Option<TaskId>, sel: Option<int>) -> Option<int> {
    match id {
        Some(x) => match row_pos(rows, x, 0) {
            Some(i) => Some(i),
            None => sel,
        },
        None => sel,
    }
}

/// A selection kept on the `n` rows shown: an index past the last row
/// moves back onto it, and there is a selection whenever there is a row
/// (the first, when there was none).
pub open spec fn clamped(sel: Option<int>, n: int) -> Option<int> {
    if n <= 0 {
        None
    } else {
        match sel {
            Some(i) => if 0 <= i < n {
                Some(i)
            } else {
                Some(n - 1)
            },
            None => Some(0),
        }
    }
}

/// The id of the selected row, if any.
pub open spec fn sel_id(a: AppView) -> Option<TaskId> {
    match sel_row(a) {
        Some(r) => Some(r.id),
        None => None,
    }
}

/// `a` with its rows rendered again from its tasks, the selected task
/// selected again; when it is no longer shown (hidden under a collapsed
/// row), the selection stays where it was, kept on the rows (see
/// `clamped`).
pub open spec fn rebuilt(a: AppView) -> AppView {
    let rows = all_rows(a.tasks, lookups(a));
    AppView { rows, selected: clamped(reselect(rows, sel_id(a), a.selected), rows.len() as int), ..a }
}

/// The selection one row down, stopping at the last row.
pub open spec fn moved_down(a: AppView) -> AppView {
    AppView {
        selected: match a.selected {
            Some(s) => Some(
                if a.rows.len() == 0 {
                    s
                } else if s + 1 < a.rows.len() {
                    s + 1
                } else {
                    a.rows.len() - 1
                },
            ),
            None => None,
        },
        ..a
    }
}

/// The selection one row up, stopping at the first row.
pub open spec fn moved_up(a: AppView) -> AppView {
    AppView {
        selected: match a.selected {
            Some(s) => Some(
                if s > 0 {
                    s - 1
                } else {
                    0
                },
            ),
            None => None,
        },
        ..a
    }
}

/// The description recorded first for task `id`, from entry `i` on.
pub open spec fn desc_from(ds: Seq<(TaskId, Option<Seq<char>>)>, id: TaskId, i: int) -> Option<
    Seq<char>,
>
    decreases ds.len() - i,
{
    if i < 0 || i >= ds.len() {
        None
    } else if ds[i].0 == id {
        ds[i].1
    } else {
        desc_from(ds, id, i + 1)
    }
}

/// `a` editing `field`, starting from `buffer`, with no error shown.
pub open spec fn editing(a: AppView, field: EditableField, buffer: Seq<char>) -> AppView {
    AppView { mode: ModeView::Insert { field, buffer }, error: None, ..a }
}

/// The prompt that asks to delete the task titled `title`.
pub open spec fn delete_prompt(title: Seq<char>) -> Seq<char> {
    "Delete \""@ + title + "\"? (y/n)"@
}

/// `a` after one key press that only concerns the view (no `Core` call),
/// once a pending `d` has been cleared.
pub open spec fn view_step(a: AppView, action: Action, was_pending_d: bool) -> AppView {
    match action {
        Action::MoveDown => moved_down(a),
        Action::MoveUp => moved_up(a),
        Action::StartInsertNewTitle => editing(a, EditableField::NewTitle, seq![]),
        Action::StartInsertNewSubtask => match sel_row(a) {
            Some(r) => editing(a, EditableField::NewSubtaskTitle(r.id), seq![]),
            None => a,
        },
        Action::InsertChar(c) => match a.mode {
            ModeView::Insert { field, buffer } => AppView {
                mode: ModeView::Insert { field, buffer: buffer.push(c) },
                ..a
            },
            _ => a,
        },
        Action::Backspace => match a.mode {
            ModeView::Insert { field, buffer } => AppView {
                mode: ModeView::Insert {
                    field,
                    buffer: if buffer.len() > 0 {
                        buffer.drop_last()
                    } else {
                        buffer
                    },
                },
                ..a
            },
            _ => a,
        },
        Action::CancelInsert => AppView { mode: ModeView::Normal, error: None, ..a },
        Action::EnterDetail => match sel_row(a) {
            Some(r) => AppView { pane: Pane::Detail, detail_field: DetailField::Title, error: None, ..a },
            None => a,
        },
        Action::LeaveDetail => AppView { pane: Pane::List, error: None, ..a },
        Action::DetailCursorDown => AppView { detail_field: DetailField::Description, ..a },
        Action::DetailCursorUp => AppView { detail_field: DetailField::Title, ..a },
        Action::StartEditTitle => match sel_row(a) {
            Some(r) => editing(a, EditableField::Title(r.id), r.title),
            None => a,
        },
        Action::StartEditDescription => match sel_row(a) {
            Some(r) => editing(
                a,
                EditableField::Description(r.id),
                match desc_from(a.descriptions, r.id, 0) {
                    Some(d) => d,
                    None => seq![],
                },
            ),
            None => a,
        },
        Action::DKeyPressed => if was_pending_d {
            match sel_row(a) {
                Some(r) => AppView {
                    mode: ModeView::Confirm {
                        prompt: delete_prompt(r.title),
                        action: PendingAction::Delete(r.id),
                    },
                    ..a
                },
                None => a,
            }
        } else {
            AppView { pending_d: true, ..a }
        },
        Action::ConfirmNo => AppView { mode: ModeView::Normal, ..a },
        Action::OpenHelp => AppView { mode: ModeView::Help { previous: Box::new(a.mode) }, ..a },
        Action::CloseHelp => match a.mode {
            ModeView::Help { previous } => AppView { mode: *previous, ..a },
            _ => a,
        },
        Action::CollapseFocused => match sel_row(a) {
            Some(r) => if r.has_children && !a.collapsed.contains(r.id) {
                rebuilt(AppView { collapsed: a.collapsed.push(r.id), ..a })
            } else {
                a
            },
            None => a,
        },
        Action::ExpandFocused => match sel_row(a) {
            Some(r) => if a.collapsed.contains(r.id) {
                rebuilt(AppView { collapsed: without_id(a.collapsed, r.id), ..a })
            } else {
                a
            },
            None => a,
        },
        Action::ExpandAll => rebuilt(AppView { collapsed: seq![], ..a }),
        Action::CollapseAll => rebuilt(AppView { collapsed: parents_of_all(a.tasks, a.tasks.len() as int), ..a }),
        _ => a,
    }
}

/// `s` without any `id`.
pub open spec fn without_id(s: Seq<TaskId>, id: TaskId) -> Seq<TaskId>
    decreases s.len(),
{
    if s.len() == 0 {
        s
    } else if s.last() == id {
        without_id(s.drop_last(), id)
    } else {
        without_id(s.drop_last(), id).push(s.last())
    }
}

/// `s` with each of `add` not yet in it appended, in order.
pub open spec fn added_ids(s: Seq<TaskId>, add: Seq<TaskId>) -> Seq<TaskId>
    decreases add.len(),
{
    if add.len() == 0 {
        s
    } else {
        let t = added_ids(s, add.drop_last());
        if t.contains(add.last()) {
            t
        } else {
            t.push(add.last())
        }
    }
}

/// Every id some of the first `n` tasks names as a parent, each once, in
/// order of first mention.
pub open spec fn parents_of_all(ts: Seq<TaskView>, n: int) -> Seq<TaskId>
    decreases n,
{
    if n <= 0 {
        seq![]
    } else {
        added_ids(parents_of_all(ts, n - 1), ts[n - 1].parent_ids)
    }
}

impl App {
    /// An `App` over `rows`, the first row selected when there is one, in
    /// `Mode::Normal` on the list with no error and no lookups.
    pub fn new(rows: Vec<TaskRow>) -> (app: App)
        ensures
            app@.rows == row_views(rows@),
            app@.selected == (if rows@.len() == 0 {
                None::<int>
            } else {
                Some(0int)
            }),
            app@.mode == ModeView::Normal,
            app@.pane == Pane::List,
            app@.detail_field == DetailField::Title,
            app@.error is None,
            app@.labels.len() == 0,
            app@.names.len() == 0,
            app@.descriptions.len() == 0,
            app@.tasks.len() == 0,
            app@.collapsed.len() == 0,
            !app@.pending_d,
    {
        let selected = if rows.len() == 0 {
            None
        } else {
            Some(0)
        };
        App {
            rows,
            selected,
            mode: Mode::Normal,
            pane: Pane::List,
            detail_field: DetailField::Title,
            error: None,
            type_labels: Vec::new(),
            user_names: Vec::new(),
            descriptions: Vec::new(),
            tasks: Vec::new(),
            collapsed: Vec::new(),
            pending_d: false,
        }
    }

    /// Attaches every task of a fetch; the rows are rendered from them
    /// whenever collapse state changes.
    pub fn with_tasks(self, tasks: Vec<Task>) -> (app: App)
        ensures
            app@ == (AppView { tasks: task_views(tasks@), ..self@ }),
    {
        let mut app = self;
        app.tasks = tasks;
        app
    }

    /// Sets which tasks are collapsed (each once) and renders the rows
    /// again, keeping the selected task selected.
    pub fn with_collapsed(self, collapsed: Vec<TaskId>) -> (app: App)
        ensures
            app@ == rebuilt(AppView { collapsed: added_ids(seq![], collapsed@), ..self@ }),
    {
        let mut app = self;
        let mut c: Vec<TaskId> = Vec::new();
        add_new_ids(&mut c, &collapsed);
        app.collapsed = c;
        app.rebuild_rows();
        app
    }

    /// Attaches the type labels (by key) and user names (by id) rows are
    /// shown with.
    pub fn with_lookup_maps(self, type_labels: Vec<(String, String)>, user_names: Vec<(UserId, String)>) -> (app: App)
        ensures
            app@ == (AppView {
                labels: lookups_of(type_labels@, user_names@, self@.collapsed).labels,
                names: lookups_of(type_labels@, user_names@, self@.collapsed).names,
                ..self@
            }),
    {
        let mut app = self;
        app.type_labels = type_labels;
        app.user_names = user_names;
        app
    }

    /// Attaches each task's description, for the Detail pane.
    pub fn with_descriptions(self, descriptions: Vec<(TaskId, Option<String>)>) -> (app: App)
        ensures
            app@ == (AppView { descriptions: desc_views(descriptions@), ..self@ }),
    {
        let mut app = self;
        app.descriptions = descriptions;
        app
    }

    /// Moves the selection down one row, stopping at the last row.
    pub fn move_down(&mut self)
        ensures
            final(self)@ == moved_down(old(self)@),
    {
        if let Some(s) = self.selected {
            if self.rows.len() > 0 {
                if s < self.rows.len() - 1 {
                    self.selected = Some(s + 1);
                } else {
                    self.selected = Some(self.rows.len() - 1);
                }
            }
        }
    }

    /// Moves the selection up one row, stopping at the first row.
    pub fn move_up(&mut self)
        ensures
            final(self)@ == moved_up(old(self)@),
    {
        if let Some(s) = self.selected {
            if s > 0 {
                self.selected = Some(s - 1);
            } else {
                self.selected = Some(0);
            }
        }
    }

    /// The selected row, when the selection lies within the rows.
    pub fn selected_row(&self) -> (r: Option<&TaskRow>)
        ensures
            match sel_row(self@) {
                Some(v) => r matches Some(x) && x@ == v,
                None => r is None,
            },
    {
        match self.selected {
            Some(i) => {
                if i < self.rows.len() {
                    Some(&self.rows[i])
                } else {
                    None
                }
            },
            None => None,
        }
    }

    /// Every row, in display order.
    pub fn rows(&self) -> (r: &Vec<TaskRow>)
        ensures
            row_views(r@) == self@.rows,
    {
        &self.rows
    }

    /// The index of the selected row.
    pub fn selected_index(&self) -> (r: Option<usize>)
        ensures
            match r {
                Some(i) => self@.selected == Some(i as int),
                None => self@.selected is None,
            },
    {
        self.selected
    }

    /// The interaction mode.
    pub fn mode(&self) -> (r: &Mode)
        ensures
            r@ == self@.mode,
    {
        &self.mode
    }

    /// The inline error, if any.
    pub fn error(&self) -> (r: Option<&str>)
        ensures
            match self@.error {
                Some(e) => r matches Some(x) && x@ == e,
                None => r is None,
            },
    {
        match &self.error {
            Some(e) => Some(e.as_str()),
            None => None,
        }
    }

    /// The collapsed tasks.
    pub fn collapsed(&self) -> (r: &Vec<TaskId>)
        ensures
            r@ == self@.collapsed,
    {
        &self.collapsed
    }

    /// The focused pane.
    pub fn pane(&self) -> (r: Pane)
        ensures
            r == self@.pane,
    {
        self.pane
    }

    /// The Detail-pane field under the cursor.
    pub fn detail_field(&self) -> (r: DetailField)
        ensures
            r == self@.detail_field,
    {
        self.detail_field
    }

    /// The description recorded for task `id`, `None` when it has none or
    /// none is recorded.
    pub fn description_of(&self, id: TaskId) -> (r: Option<&str>)
        ensures
            match desc_from(self@.descriptions, id, 0) {
                Some(d) => r matches Some(x) && x@ == d,
                None => r is None,
            },
    {
        let ghost ds = self@.descriptions;
        let mut i: usize = 0;
        while i < self.descriptions.len()
            invariant
                i <= self.descriptions.len(),
                ds == self@.descriptions,
                ds == desc_views(self.descriptions@),
                desc_from(ds, id, 0) == desc_from(ds, id, i as int),
            decreases self.descriptions.len() - i,
        {
            assert(ds[i as int] == (self.descriptions@[i as int].0, opt_view(self.descriptions@[i as int].1)));
            if self.descriptions[i].0 == id {
                return match &self.descriptions[i].1 {
                    Some(d) => Some(d.as_str()),
                    None => None,
                };
            }
            i = i + 1;
        }
        None
    }

    /// Selects the first row showing task `id`; leaves the selection as it
    /// is for `None` or an id no row shows.
    pub fn select_by_id(&mut self, id: Option<TaskId>)
        ensures
            final(self)@ == (AppView { selected: reselect(old(self)@.rows, id, old(self)@.selected), ..old(self)@ }),
    {
        if let Some(x) = id {
            let ghost rows = self@.rows;
            let mut i: usize = 0;
            while i < self.rows.len()
                invariant
                    i <= self.rows.len(),
                    *self == *old(self),
                    id == Some(x),
                    rows == row_views(self.rows@),
                    row_pos(rows, x, 0) == row_pos(rows, x, i as int),
                decreases self.rows.len() - i,
            {
                assert(rows[i as int] == self.rows@[i as int]@);
                if self.rows[i].id == x {
                    assert(row_pos(rows, x, i as int) == Some(i as int));
                    let ghost before = self@;
                    self.selected = Some(i);
                    assert(self@ == AppView { selected: Some(i as int), ..before });
                    return;
                }
                i = i + 1;
            }
        }
    }

    /// The id of the selected row, if any.
    fn selected_id(&self) -> (r: Option<TaskId>)
        ensures
            r == sel_id(self@),
    {
        match self.selected_row() {
            Some(row) => Some(row.id),
            None => None,
        }
    }

    /// Renders the rows again from the tasks, keeping the selected task
    /// selected.
    fn rebuild_rows(&mut self)
        ensures
            final(self)@ == rebuilt(old(self)@),
    {
        let id = self.selected_id();
        let rows = task_rows(&self.tasks, &self.type_labels, &self.user_names, &self.collapsed);
        self.rows = rows;
        self.select_by_id(id);
        self.clamp_selection();
    }

    /// Keeps the selection on the rows (see `clamped`).
    fn clamp_selection(&mut self)
        ensures
            final(self)@ == (AppView {
                selected: clamped(old(self)@.selected, old(self)@.rows.len() as int),
                ..old(self)@
            }),
    {
        let n = self.rows.len();
        if n == 0 {
            self.selected = None;
        } else {
            match self.selected {
                Some(i) => {
                    if i >= n {
                        self.selected = Some(n - 1);
                    }
                },
                None => {
                    self.selected = Some(0);
                },
            }
        }
    }
}

/// Appends to `v` each id of `more` not yet in it, in order.
pub(crate) fn add_new_ids(v: &mut Vec<TaskId>, more: &Vec<TaskId>)
    ensures
        final(v)@ == added_ids(old(v)@, more@),
{
    let ghost v0 = v@;
    let mut i: usize = 0;
    while i < more.len()
        invariant
            i <= more.len(),
            v@ == added_ids(v0, more@.subrange(0, i as int)),
        decreases more.len() - i,
    {
        let ghost sub = more@.subrange(0, i + 1);
        assert(sub.drop_last() =~= more@.subrange(0, i as int));
        assert(sub.last() == more@[i as int]);
        if !crate::hierarchy::contains_id(v, more[i]) {
            v.push(more[i]);
        }
        i = i + 1;
    }
    assert(more@.subrange(0, more.len() as int) =~= more@);
}

/// `v` without any `id`.
fn remove_id(v: &Vec<TaskId>, id: TaskId) -> (r: Vec<TaskId>)
    ensures
        r@ == without_id(v@, id),
{
    let mut r: Vec<TaskId> = Vec::new();
    let mut i: usize = 0;
    while i < v.len()
        invariant
            i <= v.len(),
            r@ == without_id(v@.subrange(0, i as int), id),
        decreases v.len() - i,
    {
        let ghost sub = v@.subrange(0, i + 1);
        assert(sub.drop_last() =~= v@.subrange(0, i as int));
        assert(sub.last() == v@[i as int]);
        if v[i] != id {
            r.push(v[i]);
        }
        i = i + 1;
    }
    assert(v@.subrange(0, v.len() as int) =~= v@);
    r
}

/// Every id some task names as a parent, each once, in order of first
/// mention.
fn parents_of_tasks(tasks: &Vec<Task>) -> (r: Vec<TaskId>)
    ensures
        r@ == parents_of_all(task_views(tasks@), tasks@.len() as int),
{
    let ghost ts = task_views(tasks@);
    let mut r: Vec<TaskId> = Vec::new();
    let mut i: usize = 0;
    while i < tasks.len()
        invariant
            i <= tasks.len(),
            ts == task_views(tasks@),
            r@ == parents_of_all(ts, i as int),
        decreases tasks.len() - i,
    {
        assert(ts[i as int].parent_ids == tasks@[i as int].parent_ids@);
        add_new_ids(&mut r, &tasks[i].parent_ids);
        i = i + 1;
    }
    r
}

/// The prompt that asks to delete the task titled `title`.
fn delete_prompt_text(title: &str) -> (s: String)
    ensures
        s@ == delete_prompt(title@),
{
    let mut s = owned("Delete \"");
    append_text(&mut s, title);
    append_text(&mut s, "\"? (y/n)");
    s
}

impl App {
    /// Applies an action that only concerns the view; any other action
    /// leaves the app as it is.
    fn view_only_step(&mut self, action: Action, was_pending_d: bool)
        ensures
            final(self)@ == view_step(old(self)@, action, was_pending_d),
    {
        match action {
            Action::MoveDown => self.move_down(),
            Action::MoveUp => self.move_up(),
            Action::StartInsertNewTitle => {
                self.mode = Mode::Insert { field: EditableField::NewTitle, buffer: String::new() };
                self.error = None;
            },
            Action::StartInsertNewSubtask => {
                if let Some(id) = self.selected_id() {
                    self.mode = Mode::Insert { field: EditableField::NewSubtaskTitle(id), buffer: String::new() };
                    self.error = None;
                }
            },
            Action::InsertChar(c) => {
                let mut m = Mode::Normal;
                std::mem::swap(&mut m, &mut self.mode);
                match m {
                    Mode::Insert { field, buffer } => {
                        let mut b = buffer;
                        crate::text::push_char(&mut b, c);
                        self.mode = Mode::Insert { field, buffer: b };
                    },
                    other => {
                        self.mode = other;
                    },
                }
            },
            Action::Backspace => {
                let mut m = Mode::Normal;
                std::mem::swap(&mut m, &mut self.mode);
                match m {
                    Mode::Insert { field, buffer } => {
                        let mut b = buffer;
                        let _ = crate::text::pop_char(&mut b);
                        self.mode = Mode::Insert { field, buffer: b };
                    },
                    other => {
                        self.mode = other;
                    },
                }
            },
            Action::CancelInsert => {
                self.mode = Mode::Normal;
                self.error = None;
            },
            Action::EnterDetail => {
                if self.selected_id().is_some() {
                    self.pane = Pane::Detail;
                    self.detail_field = DetailField::Title;
                    self.error = None;
                }
            },
            Action::LeaveDetail => {
                self.pane = Pane::List;
                self.error = None;
            },
            Action::DetailCursorDown => {
                self.detail_field = DetailField::Description;
            },
            Action::DetailCursorUp => {
                self.detail_field = DetailField::Title;
            },
            Action::StartEditTitle => {
                let found = match self.selected_row() {
                    Some(row) => Some((row.id, row.title.clone())),
                    None => None,
                };
                if let Some((id, title)) = found {
                    self.mode = Mode::Insert { field: EditableField::Title(id), buffer: title };
                    self.error = None;
                }
            },
            Action::StartEditDescription => {
                if let Some(id) = self.selected_id() {
                    let buffer = match self.description_of(id) {
                        Some(d) => owned(d),
                        None => String::new(),
                    };
                    self.mode = Mode::Insert { field: EditableField::Description(id), buffer };
                    self.error = None;
                }
            },
            Action::DKeyPressed => {
                if was_pending_d {
                    let found = match self.selected_row() {
                        Some(row) => Some((row.id, delete_prompt_text(row.title.as_str()))),
                        None => None,
                    };
                    if let Some((id, prompt)) = found {
                        self.mode = Mode::Confirm { prompt, action: PendingAction::Delete(id) };
                    }
                } else {
                    self.pending_d = true;
                }
            },
            Action::ConfirmNo => {
                self.mode = Mode::Normal;
            },
            Action::OpenHelp => {
                let mut m = Mode::Normal;
                std::mem::swap(&mut m, &mut self.mode);
                self.mode = Mode::Help { previous: Box::new(m) };
            },
            Action::CloseHelp => {
                let mut m = Mode::Normal;
                std::mem::swap(&mut m, &mut self.mode);
                match m {
                    Mode::Help { previous } => {
                        self.mode = *previous;
                    },
                    other => {
                        self.mode = other;
                    },
                }
            },
            Action::CollapseFocused => {
                let found = match self.selected_row() {
                    Some(row) => Some((row.id, row.has_children)),
                    None => None,
                };
                if let Some((id, has_children)) = found {
                    if has_children && !crate::hierarchy::contains_id(&self.collapsed, id) {
                        self.collapsed.push(id);
                        self.rebuild_rows();
                    }
                }
            },
            Action::ExpandFocused => {
                if let Some(id) = self.selected_id() {
                    if crate::hierarchy::contains_id(&self.collapsed, id) {
                        self.collapsed = remove_id(&self.collapsed, id);
                        self.rebuild_rows();
                    }
                }
            },
            Action::ExpandAll => {
                self.collapsed = Vec::new();
                self.rebuild_rows();
            },
            Action::CollapseAll => {
                self.collapsed = parents_of_tasks(&self.tasks);
                self.rebuild_rows();
            },
            _ => {},
        }
    }
}

/// The first task at or after `i` with id `id`.
pub open spec fn task_pos(ts: Seq<TaskView>, id: TaskId, i: int) -> Option<int>
    decreases ts.len() - i,
{
    if i < 0 || i >= ts.len() {
        None
    } else if ts[i].id == id {
        Some(i)
    } else {
        task_pos(ts, id, i + 1)
    }
}

/// `rows` with the status of each of `touched`, in turn, copied onto the
/// first row showing it.
pub open spec fn refresh_rows(rows: Seq<RowView>, touched: Seq<TaskView>) -> Seq<RowView>
    decreases touched.len(),
{
    if touched.len() == 0 {
        rows
    } else {
        let r = refresh_rows(rows, touched.drop_last());
        let t = touched.last();
        match row_pos(r, t.id, 0) {
            Some(i) => r.update(i, RowView { status: t.status, ..r[i] }),
            None => r,
        }
    }
}

/// `ts` with the status of each of `touched`, in turn, copied onto the
/// first task with its id.
pub open spec fn refresh_tasks(ts: Seq<TaskView>, touched: Seq<TaskView>) -> Seq<TaskView>
    decreases touched.len(),
{
    if touched.len() == 0 {
        ts
    } else {
        let r = refresh_tasks(ts, touched.drop_last());
        let t = touched.last();
        match task_pos(r, t.id, 0) {
            Some(i) => r.update(i, TaskView { status: t.status, ..r[i] }),
            None => r,
        }
    }
}

/// `a` showing the statuses of `touched`.
pub open spec fn refreshed(a: AppView, touched: Seq<TaskView>) -> AppView {
    AppView { rows: refresh_rows(a.rows, touched), tasks: refresh_tasks(a.tasks, touched), ..a }
}

/// `c1` is `c0` after completing `id` (its open subtree with `cascade`),
/// `touched` being the tasks it completed as `Core` hands them out.
pub open spec fn completion(c0: StoreView, c1: StoreView, id: TaskId, cascade: bool, touched: Seq<TaskView>) -> bool {
    &&& ids_of(touched).no_duplicates()
    &&& ids_of(touched).to_set() == to_complete(c0, id, cascade)
    &&& touched == shown_all(c1, live_rows(c1, ids_of(touched)))
    &&& exists|now: crate::ids::Timestamp| #[trigger] completed_state(c0, to_complete(c0, id, cascade), now) == c1
}

/// `c1` is `c0` after reopening the live task `id`, `x` being it as `Core`
/// hands it out.
pub open spec fn reopening(c0: StoreView, c1: StoreView, id: TaskId, x: TaskView) -> bool {
    live_task(c0, id) matches Some(t) && c1 == crate::facade::written(
        c0,
        TaskView { status: TaskStatus::Incomplete, completed_at: None, updated_at: x.updated_at, ..t },
    ) && (live_task(c1, id) matches Some(y) && x == shown(c1, y))
}

/// The prompt that asks to complete the task titled `title` together with
/// its `n` incomplete children.
pub open spec fn complete_prompt(title: Seq<char>, n: int) -> Seq<char> {
    "Complete \""@ + title + "\"? "@ + crate::text::decimal(n)
        + " incomplete subtask(s) will also be completed. (y/n)"@
}

/// `a` showing `e`.
pub open spec fn failed(a: AppView, e: CoreError) -> AppView {
    AppView { error: Some(core_error_message(e)), ..a }
}

/// How many of `ids` are not `id`.
pub open spec fn others(ids: Seq<TaskId>, id: TaskId) -> nat
    decreases ids.len(),
{
    if ids.len() == 0 {
        0
    } else {
        others(ids.drop_last(), id) + if ids.last() == id {
            0nat
        } else {
            1nat
        }
    }
}

/// What toggling the selected task does: an incomplete task is completed
/// (or, with open tasks anywhere under it, the cascade is asked about first, naming
/// how many tasks besides it the cascade would complete); a complete one is
/// reopened.
pub open spec fn toggle_spec(a: AppView, c0: StoreView, c1: StoreView, a1: AppView) -> bool {
    match sel_row(a) {
        None => a1 == a && c1 == c0,
        Some(r) => if live_task(c0, r.id) is None {
            c1 == c0 && a1 == failed(a, CoreError::NotFound(r.id))
        } else if r.status == TaskStatus::Incomplete {
            if open_descendants(c0, r.id) != Set::<TaskId>::empty() {
                c1 == c0 && exists|c: StoreView, v: Seq<TaskView>|
                    completion(c0, c, r.id, true, v) && a1 == (AppView {
                        mode: ModeView::Confirm {
                            prompt: complete_prompt(r.title, others(ids_of(v), r.id) as int),
                            action: PendingAction::CompleteCascade(r.id),
                        },
                        ..a
                    })
            } else {
                exists|touched: Seq<TaskView>|
                    completion(c0, c1, r.id, false, touched) && a1 == #[trigger] refreshed(
                        AppView { error: None, ..a },
                        touched,
                    )
            }
        } else {
            exists|x: TaskView|
                reopening(c0, c1, r.id, x) && a1 == #[trigger] refreshed(AppView { error: None, ..a }, seq![x])
        },
    }
}

/// How many of `v` are not task `id`.
fn count_others(v: &Vec<Task>, id: TaskId) -> (n: usize)
    ensures
        n == others(ids_of(task_views(v@)), id),
{
    let ghost ids = ids_of(task_views(v@));
    let mut n: usize = 0;
    let mut i: usize = 0;
    while i < v.len()
        invariant
            i <= v.len(),
            ids == ids_of(task_views(v@)),
            n == others(ids.subrange(0, i as int), id),
            n <= i,
        decreases v.len() - i,
    {
        let ghost sub = ids.subrange(0, i + 1);
        assert(sub.drop_last() =~= ids.subrange(0, i as int));
        assert(sub.last() == v@[i as int].id);
        if v[i].id != id {
            n = n + 1;
        }
        i = i + 1;
    }
    assert(ids.subrange(0, v.len() as int) =~= ids);
    n
}

/// Sets the status of the first row showing `id`.
fn set_row_status(rows: &mut Vec<TaskRow>, id: TaskId, s: TaskStatus)
    ensures
        row_views(final(rows)@) == (match row_pos(row_views(old(rows)@), id, 0) {
            Some(i) => row_views(old(rows)@).update(i, RowView { status: s, ..row_views(old(rows)@)[i] }),
            None => row_views(old(rows)@),
        }),
{
    let ghost rv = row_views(rows@);
    let mut i: usize = 0;
    while i < rows.len()
        invariant
            i <= rows.len(),
            *rows == *old(rows),
            rv == row_views(rows@),
            row_pos(rv, id, 0) == row_pos(rv, id, i as int),
        decreases rows.len() - i,
    {
        assert(rv[i as int] == rows@[i as int]@);
        if rows[i].id == id {
            let r = row_with_status(&rows[i], s);
            rows.set(i, r);
            assert(row_views(rows@) =~= rv.update(i as int, RowView { status: s, ..rv[i as int] }));
            return;
        }
        i = i + 1;
    }
}

/// `r` with status `s`.
fn row_with_status(r: &TaskRow, s: TaskStatus) -> (o: TaskRow)
    ensures
        o@ == (RowView { status: s, ..r@ }),
{
    TaskRow {
        id: r.id,
        title: r.title.clone(),
        type_label: r.type_label.clone(),
        status: s,
        assignee_name: crate::model::copy_opt_text(&r.assignee_name),
        depth: r.depth,
        has_children: r.has_children,
        collapsed: r.collapsed,
        direct_summary: r.direct_summary,
    }
}

/// Sets the status of the first task with id `id`.
fn set_task_status(ts: &mut Vec<Task>, id: TaskId, s: TaskStatus)
    ensures
        task_views(final(ts)@) == (match task_pos(task_views(old(ts)@), id, 0) {
            Some(i) => task_views(old(ts)@).update(i, TaskView { status: s, ..task_views(old(ts)@)[i] }),
            None => task_views(old(ts)@),
        }),
{
    let ghost tv = task_views(ts@);
    let mut i: usize = 0;
    while i < ts.len()
        invariant
            i <= ts.len(),
            *ts == *old(ts),
            tv == task_views(ts@),
            task_pos(tv, id, 0) == task_pos(tv, id, i as int),
        decreases ts.len() - i,
    {
        assert(tv[i as int] == ts@[i as int]@);
        if ts[i].id == id {
            let mut t = ts[i].duplicate();
            t.status = s;
            ts.set(i, t);
            assert(task_views(ts@) =~= tv.update(i as int, TaskView { status: s, ..tv[i as int] }));
            return;
        }
        i = i + 1;
    }
}

/// The prompt that asks to complete the task titled `title` together with
/// its `n` incomplete children.
fn complete_prompt_text(title: &str, n: usize) -> (s: String)
    ensures
        s@ == complete_prompt(title@, n as int),
{
    let mut s = owned("Complete \"");
    append_text(&mut s, title);
    append_text(&mut s, "\"? ");
    let d = crate::text::count_text(n);
    append_text(&mut s, d.as_str());
    append_text(&mut s, " incomplete subtask(s) will also be completed. (y/n)");
    s
}

impl App {
    /// Copies the status of each of `touched` onto its row and cached task.
    fn refresh_statuses(&mut self, touched: &Vec<Task>)
        ensures
            final(self)@ == refreshed(old(self)@, task_views(touched@)),
    {
        let ghost tv = task_views(touched@);
        let ghost a0 = self@;
        let mut k: usize = 0;
        while k < touched.len()
            invariant
                k <= touched.len(),
                tv == task_views(touched@),
                self@ == refreshed(a0, tv.subrange(0, k as int)),
            decreases touched.len() - k,
        {
            let ghost sub = tv.subrange(0, k + 1);
            assert(sub.drop_last() =~= tv.subrange(0, k as int));
            assert(sub.last() == touched@[k as int]@);
            let id = touched[k].id;
            let s = touched[k].status;
            set_row_status(&mut self.rows, id, s);
            set_task_status(&mut self.tasks, id, s);
            k = k + 1;
        }
        assert(tv.subrange(0, touched.len() as int) =~= tv);
    }

    /// Toggles the selected task between complete and incomplete (see
    /// `toggle_spec`).
    fn toggle_complete(&mut self, core: &mut Core)
        ensures
            toggle_spec(old(self)@, old(core)@, final(core)@, final(self)@),
    {
        let found = match self.selected_row() {
            Some(row) => Some((row.id, row.title.clone(), row.status)),
            None => None,
        };
        let (id, title, status) = match found {
            Some(f) => f,
            None => {
                return;
            },
        };
        let ghost a0 = self@;
        let ghost c0 = core@;
        match status {
            TaskStatus::Incomplete => match core.complete_task(id, false) {
                Ok(touched) => {
                    self.error = None;
                    self.refresh_statuses(&touched);
                    proof {
                        assert(crate::facade::views(touched@) =~= task_views(touched@));
                        assert(completion(c0, core@, id, false, task_views(touched@)));
                    }
                },
                Err(CoreError::IncompleteChildren { .. }) => {
                    let mut probe = core.duplicate();
                    let count = match probe.complete_task(id, true) {
                        Ok(v) => {
                            proof {
                                assert(crate::facade::views(v@) =~= task_views(v@));
                                assert(completion(c0, probe@, id, true, task_views(v@)));
                            }
                            count_others(&v, id)
                        },
                        Err(_) => 0,
                    };
                    self.mode = Mode::Confirm {
                        prompt: complete_prompt_text(title.as_str(), count),
                        action: PendingAction::CompleteCascade(id),
                    };
                },
                Err(e) => {
                    self.error = Some(e.message());
                },
            },
            TaskStatus::Complete => match core.reopen_task(id) {
                Ok(t) => {
                    let ghost x = t@;
                    let mut v: Vec<Task> = Vec::new();
                    v.push(t);
                    self.error = None;
                    self.refresh_statuses(&v);
                    proof {
                        assert(task_views(v@) =~= seq![x]);
                        assert(reopening(c0, core@, id, x));
                    }
                },
                Err(e) => {
                    self.error = Some(e.message());
                },
            },
        }
    }
}

/// `r` is what `Core::create_task` answers for `n` (the task as handed
/// out, or the error), `c1` the store after it.
pub open spec fn creation(c0: StoreView, c1: StoreView, n: NewTask, r: Result<TaskView, CoreError>) -> bool {
    &&& !create_ok(c0, n) ==> (r matches Err(e) && create_error(c0, n, e)) && c1 == c0
    &&& create_ok(c0, n) ==> (r matches Ok(t) && (!id_in_use(c0, t.id) && c1 == created(c0, n, t.id, t.created_at)
        && (live_task(c1, t.id) matches Some(x) && t == (TaskView { parent_ids: n.parent_ids@, ..shown(c1, x) })))) || (r matches Err(
        CoreError::Store(_),
    ) && c1 == c0)
    &&& r matches Err(CoreError::Store(_)) ==> exists|x: TaskId| #[trigger] id_in_use(c0, x)
}

/// `r` is what `Core::update_task` answers for `id` and `p`.
pub open spec fn updating(c0: StoreView, c1: StoreView, id: TaskId, p: TaskPatch, r: Result<Seq<TaskView>, CoreError>) -> bool {
    &&& live_task(c0, id) is None ==> r == Err::<Seq<TaskView>, CoreError>(CoreError::NotFound(id)) && c1 == c0
    &&& live_task(c0, id) matches Some(t) ==> (!update_ok(c0, t, p) ==> (r matches Err(e) && update_error(c0, t, p, e))
        && c1 == c0) && (update_ok(c0, t, p) ==> (r matches Ok(v) && (v.len() == 1 && c1 == written(
        c0,
        patched(t, p, v[0].updated_at),
    ) && (live_task(c1, id) matches Some(x) && v[0] == shown(c1, x)))))
}

/// `r` is what `Core::set_parents` answers for `id` and `ids`.
pub open spec fn reparenting(c0: StoreView, c1: StoreView, id: TaskId, ids: Seq<TaskId>, r: Result<TaskView, CoreError>) -> bool {
    &&& live_task(c0, id) is None ==> r == Err::<TaskView, CoreError>(CoreError::NotFound(id)) && c1 == c0
    &&& live_task(c0, id) matches Some(t) ==> (first_missing(c0, ids) matches Some(p) ==> r == Err::<TaskView, CoreError>(
        CoreError::NotFound(p),
    ) && c1 == c0) && (first_missing(c0, ids) is None ==> (first_cycle(c0.edges, id, ids) matches Some(p) ==> r
        == Err::<TaskView, CoreError>(CoreError::CircularHierarchy { task: id, attempted_parent: p }) && c1 == c0) && (
    first_cycle(c0.edges, id, ids) is None ==> (r matches Ok(x) && (c1 == written(
        StoreView { edges: reparented_edges(c0.edges, id, ids), ..c0 },
        TaskView { updated_at: x.updated_at, ..t },
    ) && (live_task(c1, id) matches Some(y) && x == shown(c1, y))))))
}

/// `r` is what `Core::complete_task` answers for `id` and `cascade`.
pub open spec fn completing(c0: StoreView, c1: StoreView, id: TaskId, cascade: bool, r: Result<Seq<TaskView>, CoreError>) -> bool {
    &&& live_task(c0, id) is None ==> r == Err::<Seq<TaskView>, CoreError>(CoreError::NotFound(id)) && c1 == c0
    &&& live_task(c0, id) is Some && !cascade && open_descendants(c0, id) != Set::<TaskId>::empty() ==> (r matches Err(
        CoreError::IncompleteChildren { task, incomplete },
    ) && (task == id && incomplete@.no_duplicates() && incomplete@.to_set() == open_descendants(c0, id))) && c1 == c0
    &&& live_task(c0, id) is Some && (cascade || open_descendants(c0, id) == Set::<TaskId>::empty()) ==> (r matches Ok(v)
        && completion(c0, c1, id, cascade, v))
}

/// `r` is what `Core::delete_task` answers for `id` and `mode`.
pub open spec fn deletion(c0: StoreView, c1: StoreView, id: TaskId, mode: DeleteMode, r: Result<Seq<TaskView>, CoreError>) -> bool {
    &&& live_task(c0, id) is None ==> r == Err::<Seq<TaskView>, CoreError>(CoreError::NotFound(id)) && c1 == c0
    &&& live_task(c0, id) is Some ==> (r matches Ok(v) && (ids_of(v).no_duplicates() && ids_of(v).to_set()
        == delete_touched(c0, id, mode) && v == shown_all(c1, any_rows(c1, ids_of(v))) && exists|now: Timestamp|
        #[trigger] deleted_state(c0, id, mode, now) == c1))
}

/// `a` with its tasks fetched again from `c` (every live task, in store
/// order), its rows rendered from them, and `select` selected when a row
/// shows it (else the selection kept on the rows, see `clamped`).
pub open spec fn refresh_tree(a: AppView, c: StoreView, select: Option<TaskId>) -> AppView {
    let ts = shown_all(
        c,
        listed(c.tasks, c.edges, TreeFilter { type_key: None, status: None, assignee_id: None, include_deleted: false }),
    );
    let rows = all_rows(ts, lookups(a));
    AppView { tasks: ts, rows, selected: clamped(reselect(rows, select, a.selected), rows.len() as int), ..a }
}

/// The ids of the tasks of `v` that are soft-deleted.
pub open spec fn tombstoned(v: Seq<TaskView>) -> Seq<TaskId>
    decreases v.len(),
{
    if v.len() == 0 {
        seq![]
    } else if v.last().deleted_at is Some {
        tombstoned(v.drop_last()).push(v.last().id)
    } else {
        tombstoned(v.drop_last())
    }
}

/// The rows of tasks not in `gone`.
pub open spec fn kept_rows(rows: Seq<RowView>, gone: Seq<TaskId>) -> Seq<RowView>
    decreases rows.len(),
{
    if rows.len() == 0 {
        rows
    } else if gone.contains(rows.last().id) {
        kept_rows(rows.drop_last(), gone)
    } else {
        kept_rows(rows.drop_last(), gone).push(rows.last())
    }
}

/// The tasks not in `gone`.
pub open spec fn kept_tasks(ts: Seq<TaskView>, gone: Seq<TaskId>) -> Seq<TaskView>
    decreases ts.len(),
{
    if ts.len() == 0 {
        ts
    } else if gone.contains(ts.last().id) {
        kept_tasks(ts.drop_last(), gone)
    } else {
        kept_tasks(ts.drop_last(), gone).push(ts.last())
    }
}

/// `a` after the tasks of `v` that were soft-deleted leave it: the
/// selection clamped to the rows left, back to the list in `Normal`.
pub open spec fn after_delete(a: AppView, v: Seq<TaskView>) -> AppView {
    let rows = kept_rows(a.rows, tombstoned(v));
    AppView {
        rows,
        tasks: kept_tasks(a.tasks, tombstoned(v)),
        selected: if rows.len() == 0 {
            None
        } else {
            let s = match a.selected {
                Some(i) => i,
                None => 0,
            };
            Some(
                if s < rows.len() {
                    s
                } else {
                    rows.len() - 1
                },
            )
        },
        pane: Pane::List,
        mode: ModeView::Normal,
        error: None,
        ..a
    }
}

/// A field left as it is when `o` is `None`, else set to its value.
pub open spec fn keep_or<T>(o: Option<T>) -> Field<T> {
    match o {
        Some(x) => Field::Assign(x),
        None => Field::Keep,
    }
}

/// The edit that copies `p`'s assignee and dates, those it has.
pub open spec fn inherit_patch(p: TaskView) -> TaskPatch {
    TaskPatch {
        title: Field::Keep,
        description: Field::Keep,
        start_date: keep_or(p.start_date),
        due_date: keep_or(p.due_date),
        assignee_id: keep_or(p.assignee_id),
        type_key: Field::Keep,
    }
}

/// What confirming does, by the pending action: delete the task with its
/// subtree, complete the task with its open subtree, or copy the parent's
/// assignee and dates onto the new subtask.
pub open spec fn confirm_spec(a: AppView, c0: StoreView, c1: StoreView, a1: AppView) -> bool {
    match a.mode {
        ModeView::Confirm { action, .. } => match action {
            PendingAction::Delete(id) => exists|r: Result<Seq<TaskView>, CoreError>|
                deletion(c0, c1, id, DeleteMode::Subtree, r) && a1 == match r {
                    Ok(v) => after_delete(a, v),
                    Err(e) => AppView { mode: ModeView::Normal, ..failed(a, e) },
                },
            PendingAction::CompleteCascade(id) => exists|r: Result<Seq<TaskView>, CoreError>|
                completing(c0, c1, id, true, r) && a1 == match r {
                    Ok(v) => refreshed(AppView { mode: ModeView::Normal, error: None, ..a }, v),
                    Err(e) => AppView { mode: ModeView::Normal, ..failed(a, e) },
                },
            PendingAction::InheritFromParent { child, parent } => {
                let n = AppView { mode: ModeView::Normal, ..a };
                match live_task(c0, parent) {
                    None => c1 == c0 && a1 == n,
                    Some(p) => exists|r: Result<Seq<TaskView>, CoreError>|
                        updating(c0, c1, child, inherit_patch(p), r) && a1 == match r {
                            Ok(_) => refresh_tree(AppView { error: None, ..n }, c1, Some(child)),
                            Err(e) => failed(n, e),
                        },
                }
            },
            PendingAction::DeleteWithChildren(_) => a1 == a && c1 == c0,
        },
        _ => a1 == a && c1 == c0,
    }
}

impl App {
    /// Fetches every live task again, renders the rows from them, and
    /// selects `select` when a row shows it.
    fn refresh_from_tree(&mut self, core: &Core, select: Option<TaskId>)
        ensures
            final(self)@ == refresh_tree(old(self)@, core@, select),
    {
        let filter = TreeFilter { type_key: None, status: None, assignee_id: None, include_deleted: false };
        match core.get_tree(filter) {
            Ok(tasks) => {
                proof {
                    assert(crate::facade::views(tasks@) =~= task_views(tasks@));
                }
                self.tasks = tasks;
                self.rows = task_rows(&self.tasks, &self.type_labels, &self.user_names, &self.collapsed);
                self.select_by_id(select);
                self.clamp_selection();
            },
            Err(e) => {
                self.error = Some(e.message());
            },
        }
    }

    /// Drops the rows and cached tasks of the tasks of `v` that were
    /// soft-deleted, clamps the selection, and returns to the list.
    fn drop_deleted(&mut self, v: &Vec<Task>)
        ensures
            final(self)@ == after_delete(old(self)@, task_views(v@)),
    {
        let gone = tombstoned_ids(v);
        let rows = keep_rows_exec(&self.rows, &gone);
        let tasks = keep_tasks_exec(&self.tasks, &gone);
        self.rows = rows;
        self.tasks = tasks;
        if self.rows.len() == 0 {
            self.selected = None;
        } else {
            let s = match self.selected {
                Some(i) => i,
                None => 0,
            };
            if s < self.rows.len() {
                self.selected = Some(s);
            } else {
                self.selected = Some(self.rows.len() - 1);
            }
        }
        self.pane = Pane::List;
        self.mode = Mode::Normal;
        self.error = None;
    }

    /// Runs the action waiting for confirmation (see `confirm_spec`).
    fn confirm_yes(&mut self, core: &mut Core)
        ensures
            confirm_spec(old(self)@, old(core)@, final(core)@, final(self)@),
    {
        let action = match &self.mode {
            Mode::Confirm { action, .. } => *action,
            _ => {
                return;
            },
        };
        let ghost a0 = self@;
        let ghost c0 = core@;
        match action {
            PendingAction::Delete(id) => {
                let r = core.delete_task(id, DeleteMode::Subtree);
                match r {
                    Ok(v) => {
                        proof {
                            assert(crate::facade::views(v@) =~= task_views(v@));
                            assert(deletion(c0, core@, id, DeleteMode::Subtree, Ok(task_views(v@))));
                        }
                        self.drop_deleted(&v);
                    },
                    Err(e) => {
                        proof {
                            assert(deletion(c0, core@, id, DeleteMode::Subtree, Err(e)));
                        }
                        self.mode = Mode::Normal;
                        self.error = Some(e.message());
                    },
                }
            },
            PendingAction::CompleteCascade(id) => {
                let r = core.complete_task(id, true);
                match r {
                    Ok(v) => {
                        proof {
                            assert(crate::facade::views(v@) =~= task_views(v@));
                            assert(completing(c0, core@, id, true, Ok(task_views(v@))));
                        }
                        self.mode = Mode::Normal;
                        self.error = None;
                        self.refresh_statuses(&v);
                    },
                    Err(e) => {
                        proof {
                            assert(completing(c0, core@, id, true, Err(e)));
                        }
                        self.mode = Mode::Normal;
                        self.error = Some(e.message());
                    },
                }
            },
            PendingAction::InheritFromParent { child, parent } => {
                self.mode = Mode::Normal;
                self.inherit_from_parent(core, child, parent);
            },
            PendingAction::DeleteWithChildren(_) => {},
        }
    }

    /// Copies `parent`'s assignee and dates, those it has, onto `child`;
    /// nothing when `parent` is gone.
    fn inherit_from_parent(&mut self, core: &mut Core, child: TaskId, parent: TaskId)
        ensures
            match live_task(old(core)@, parent) {
                None => final(core)@ == old(core)@ && final(self)@ == old(self)@,
                Some(p) => exists|r: Result<Seq<TaskView>, CoreError>|
                    updating(old(core)@, final(core)@, child, inherit_patch(p), r) && final(self)@ == match r {
                        Ok(_) => refresh_tree(AppView { error: None, ..old(self)@ }, final(core)@, Some(child)),
                        Err(e) => failed(old(self)@, e),
                    },
            },
    {
        let p = match core.get_task(parent) {
            Ok(Some(p)) => p,
            Ok(None) => {
                return;
            },
            Err(e) => {
                self.error = Some(e.message());
                return;
            },
        };
        let ghost c0 = core@;
        let patch = TaskPatch {
            title: Field::Keep,
            description: Field::Keep,
            start_date: match p.start_date {
                Some(d) => Field::Assign(d),
                None => Field::Keep,
            },
            due_date: match p.due_date {
                Some(d) => Field::Assign(d),
                None => Field::Keep,
            },
            assignee_id: match p.assignee_id {
                Some(u) => Field::Assign(u),
                None => Field::Keep,
            },
            type_key: Field::Keep,
        };
        proof {
            assert(patch == inherit_patch(live_task(c0, parent)->0));
        }
        let r = core.update_task(child, patch);
        match r {
            Ok(v) => {
                proof {
                    assert(crate::facade::views(v@) =~= task_views(v@));
                    assert(updating(c0, core@, child, inherit_patch(live_task(c0, parent)->0), Ok(task_views(v@))));
                }
                self.error = None;
                self.refresh_from_tree(core, Some(child));
            },
            Err(e) => {
                proof {
                    assert(updating(c0, core@, child, inherit_patch(live_task(c0, parent)->0), Err(e)));
                }
                self.error = Some(e.message());
            },
        }
    }
}

/// The ids of the tasks of `v` that are soft-deleted.
fn tombstoned_ids(v: &Vec<Task>) -> (r: Vec<TaskId>)
    ensures
        r@ == tombstoned(task_views(v@)),
{
    let ghost tv = task_views(v@);
    let mut r: Vec<TaskId> = Vec::new();
    let mut i: usize = 0;
    while i < v.len()
        invariant
            i <= v.len(),
            tv == task_views(v@),
            r@ == tombstoned(tv.subrange(0, i as int)),
        decreases v.len() - i,
    {
        let ghost sub = tv.subrange(0, i + 1);
        assert(sub.drop_last() =~= tv.subrange(0, i as int));
        assert(sub.last() == v@[i as int]@);
        if v[i].deleted_at.is_some() {
            r.push(v[i].id);
        }
        i = i + 1;
    }
    assert(tv.subrange(0, v.len() as int) =~= tv);
    r
}

/// The rows of tasks not in `gone`.
fn keep_rows_exec(rows: &Vec<TaskRow>, gone: &Vec<TaskId>) -> (r: Vec<TaskRow>)
    ensures
        row_views(r@) == kept_rows(row_views(rows@), gone@),
{
    let ghost rv = row_views(rows@);
    let mut r: Vec<TaskRow> = Vec::new();
    let mut i: usize = 0;
    while i < rows.len()
        invariant
            i <= rows.len(),
            rv == row_views(rows@),
            row_views(r@) == kept_rows(rv.subrange(0, i as int), gone@),
        decreases rows.len() - i,
    {
        let ghost sub = rv.subrange(0, i + 1);
        assert(sub.drop_last() =~= rv.subrange(0, i as int));
        assert(sub.last() == rows@[i as int]@);
        if !crate::hierarchy::contains_id(gone, rows[i].id) {
            let ghost before = r@;
            let copy = row_with_status(&rows[i], rows[i].status);
            r.push(copy);
            assert(row_views(r@) =~= row_views(before).push(rows@[i as int]@));
        }
        i = i + 1;
    }
    assert(rv.subrange(0, rows.len() as int) =~= rv);
    r
}

/// The tasks not in `gone`.
fn keep_tasks_exec(ts: &Vec<Task>, gone: &Vec<TaskId>) -> (r: Vec<Task>)
    ensures
        task_views(r@) == kept_tasks(task_views(ts@), gone@),
{
    let ghost tv = task_views(ts@);
    let mut r: Vec<Task> = Vec::new();
    let mut i: usize = 0;
    while i < ts.len()
        invariant
            i <= ts.len(),
            tv == task_views(ts@),
            task_views(r@) == kept_tasks(tv.subrange(0, i as int), gone@),
        decreases ts.len() - i,
    {
        let ghost sub = tv.subrange(0, i + 1);
        assert(sub.drop_last() =~= tv.subrange(0, i as int));
        assert(sub.last() == ts@[i as int]@);
        if !crate::hierarchy::contains_id(gone, ts[i].id) {
            let ghost before = r@;
            let copy = ts[i].duplicate();
            r.push(copy);
            assert(task_views(r@) =~= task_views(before).push(ts@[i as int]@));
        }
        i = i + 1;
    }
    assert(tv.subrange(0, ts.len() as int) =~= tv);
    r
}

/// `n` asks for a task titled `title` under `parents`, with nothing else
/// set.
pub open spec fn title_only(n: NewTask, title: Seq<char>, parents: Seq<TaskId>) -> bool {
    &&& n.title@ == title
    &&& n.description is None
    &&& n.parent_ids@ == parents
    &&& n.type_key is None
    &&& n.start_date is None
    &&& n.due_date is None
    &&& n.assignee_id is None
}

/// `p` sets the title to `text` and leaves everything else.
pub open spec fn title_patch(p: TaskPatch, text: Seq<char>) -> bool {
    &&& p.title matches Field::Assign(s) && s@ == text
    &&& p.description is Keep
    &&& p.start_date is Keep
    &&& p.due_date is Keep
    &&& p.assignee_id is Keep
    &&& p.type_key is Keep
}

/// `p` sets the description to `text` and leaves everything else.
pub open spec fn description_patch(p: TaskPatch, text: Seq<char>) -> bool {
    &&& p.title is Keep
    &&& p.description matches Field::Assign(s) && s@ == text
    &&& p.start_date is Keep
    &&& p.due_date is Keep
    &&& p.assignee_id is Keep
    &&& p.type_key is Keep
}

/// `p` sets the type key to `text` and leaves everything else.
pub open spec fn type_patch(p: TaskPatch, text: Seq<char>) -> bool {
    &&& p.title is Keep
    &&& p.description is Keep
    &&& p.start_date is Keep
    &&& p.due_date is Keep
    &&& p.assignee_id is Keep
    &&& p.type_key matches Field::Assign(s) && s@ == text
}

/// The pieces of `s` between commas (one piece when it has none).
pub open spec fn split_commas(s: Seq<char>) -> Seq<Seq<char>>
    decreases s.len(),
{
    if s.len() == 0 {
        seq![seq![]]
    } else {
        let r = split_commas(s.drop_last());
        if s.last() == ',' {
            r.push(seq![])
        } else {
            r.update(r.len() - 1, r.last().push(s.last()))
        }
    }
}

/// Each piece, trimmed, read as a task id; `None` when one is not an id.
pub open spec fn parse_pieces(ps: Seq<Seq<char>>) -> Option<Seq<TaskId>>
    decreases ps.len(),
{
    if ps.len() == 0 {
        Some(seq![])
    } else {
        match (parse_pieces(ps.drop_last()), uuid_from_text(trim_end(trim_start(ps.last())))) {
            (Some(ids), Some(v)) => Some(ids.push(TaskId { value: v })),
            _ => None,
        }
    }
}

/// The parent list the reparent line holds: comma-separated task ids,
/// none at all when the line is blank.
pub open spec fn parent_list(buffer: Seq<char>) -> Option<Seq<TaskId>> {
    let t = trim_end(trim_start(buffer));
    if t.len() == 0 {
        Some(seq![])
    } else {
        parse_pieces(split_commas(t))
    }
}

/// `ids` as the reparent line shows them: hyphenated, comma-separated.
pub open spec fn ids_csv(ids: Seq<TaskId>) -> Seq<char>
    decreases ids.len(),
{
    if ids.len() == 0 {
        seq![]
    } else if ids.len() == 1 {
        crate::text::hyphenated(ids[0].value)
    } else {
        ids_csv(ids.drop_last()) + ","@ + crate::text::hyphenated(ids.last().value)
    }
}

/// `rows` with the first row showing `id` titled `title`.
pub open spec fn retitled(rows: Seq<RowView>, id: TaskId, title: Seq<char>) -> Seq<RowView> {
    match row_pos(rows, id, 0) {
        Some(i) => rows.update(i, RowView { title, ..rows[i] }),
        None => rows,
    }
}

/// The first description entry at or after `i` for task `id`.
pub open spec fn desc_pos(ds: Seq<(TaskId, Option<Seq<char>>)>, id: TaskId, i: int) -> Option<int>
    decreases ds.len() - i,
{
    if i < 0 || i >= ds.len() {
        None
    } else if ds[i].0 == id {
        Some(i)
    } else {
        desc_pos(ds, id, i + 1)
    }
}

/// `ds` recording `d` as the description of `id`.
pub open spec fn with_desc(ds: Seq<(TaskId, Option<Seq<char>>)>, id: TaskId, d: Option<Seq<char>>) -> Seq<
    (TaskId, Option<Seq<char>>),
> {
    match desc_pos(ds, id, 0) {
        Some(i) => ds.update(i, (id, d)),
        None => ds.push((id, d)),
    }
}

/// The prompt that asks whether the new subtask takes over the assignee
/// and dates of the parent titled `title`.
pub open spec fn inherit_prompt(title: Seq<char>) -> Seq<char> {
    "Inherit assignee/dates from parent \""@ + title + "\"? (y/n)"@
}

/// After a subtask `child` of `parent` was created: ask whether to inherit
/// when the parent has an assignee or a date, else back to `Normal`.
pub open spec fn subtask_done(a: AppView, c: StoreView, child: TaskId, parent: TaskId) -> AppView {
    match live_task(c, parent) {
        Some(p) => if p.assignee_id is Some || p.start_date is Some || p.due_date is Some {
            AppView {
                mode: ModeView::Confirm {
                    prompt: inherit_prompt(p.title),
                    action: PendingAction::InheritFromParent { child, parent },
                },
                ..a
            }
        } else {
            AppView { mode: ModeView::Normal, ..a }
        },
        None => AppView { mode: ModeView::Normal, ..a },
    }
}

/// `a` after a created task: refetched with it selected and back to
/// `Normal`, or a subtask's follow-up question.
pub open spec fn after_create(a: AppView, c1: StoreView, parent: Option<TaskId>, r: Result<TaskView, CoreError>) -> AppView {
    match r {
        Ok(t) => {
            let a2 = refresh_tree(AppView { error: None, ..a }, c1, Some(t.id));
            match parent {
                Some(p) => subtask_done(a2, c1, t.id, p),
                None => AppView { mode: ModeView::Normal, ..a2 },
            }
        },
        Err(e) => failed(a, e),
    }
}

/// What submitting the edit line does, by the field it edits: create a
/// task or subtask, change a title, description or type, or replace the
/// parents. A failure shows the error and keeps the line for fixing.
pub open spec fn submit_spec(a: AppView, c0: StoreView, c1: StoreView, a1: AppView) -> bool {
    match a.mode {
        ModeView::Insert { field, buffer } => match field {
            EditableField::NewTitle => exists|n: NewTask, r: Result<TaskView, CoreError>|
                title_only(n, buffer, seq![]) && #[trigger] creation(c0, c1, n, r) && a1 == after_create(a, c1, None, r),
            EditableField::NewSubtaskTitle(pid) => exists|n: NewTask, r: Result<TaskView, CoreError>|
                title_only(n, buffer, seq![pid]) && #[trigger] creation(c0, c1, n, r) && a1 == after_create(a, c1, Some(pid), r),
            EditableField::Title(id) => exists|p: TaskPatch, r: Result<Seq<TaskView>, CoreError>|
                title_patch(p, buffer) && #[trigger] updating(c0, c1, id, p, r) && a1 == match r {
                    Ok(_) => AppView { mode: ModeView::Normal, error: None, rows: retitled(a.rows, id, buffer), ..a },
                    Err(e) => failed(a, e),
                },
            EditableField::Description(id) => exists|p: TaskPatch, r: Result<Seq<TaskView>, CoreError>|
                description_patch(p, buffer) && #[trigger] updating(c0, c1, id, p, r) && a1 == match r {
                    Ok(_) => AppView {
                        mode: ModeView::Normal,
                        error: None,
                        descriptions: with_desc(a.descriptions, id, Some(buffer)),
                        ..a
                    },
                    Err(e) => failed(a, e),
                },
            EditableField::TypeKey(id) => exists|p: TaskPatch, r: Result<Seq<TaskView>, CoreError>|
                type_patch(p, buffer) && #[trigger] updating(c0, c1, id, p, r) && a1 == match r {
                    Ok(_) => AppView { mode: ModeView::Normal, ..refresh_tree(AppView { error: None, ..a }, c1, Some(id)) },
                    Err(e) => failed(a, e),
                },
            EditableField::Parents(id) => match parent_list(buffer) {
                None => c1 == c0 && a1 == (AppView { error: Some("invalid task id in parent list"@), ..a }),
                Some(ids) => exists|r: Result<TaskView, CoreError>|
                    #[trigger] reparenting(c0, c1, id, ids, r) && a1 == match r {
                        Ok(_) => AppView { mode: ModeView::Normal, ..refresh_tree(AppView { error: None, ..a }, c1, Some(id)) },
                        Err(e) => failed(a, e),
                    },
            },
        },
        _ => a1 == a && c1 == c0,
    }
}

/// What starting to reparent or retype the selected task does: the edit
/// line opens on its current parents or type key, read from `Core`.
pub open spec fn start_edit_spec(a: AppView, c: StoreView, a1: AppView, parents: bool) -> bool {
    match sel_row(a) {
        None => a1 == a,
        Some(r) => match live_task(c, r.id) {
            None => a1 == a,
            Some(t) => a1 == if parents {
                editing(a, EditableField::Parents(r.id), ids_csv(t.parent_ids))
            } else {
                editing(a, EditableField::TypeKey(r.id), t.type_key)
            },
        },
    }
}

proof fn lemma_parse_prefix_none(ps: Seq<Seq<char>>, k: int)
    requires
        0 <= k <= ps.len(),
        parse_pieces(ps.subrange(0, k)) is None,
    ensures
        parse_pieces(ps) is None,
    decreases ps.len() - k,
{
    if k < ps.len() {
        let q = ps.subrange(0, k + 1);
        assert(q.drop_last() =~= ps.subrange(0, k));
        lemma_parse_prefix_none(ps, k + 1);
    } else {
        assert(ps.subrange(0, k) =~= ps);
    }
}

/// The pieces of `s` between commas.
fn split_at_commas(s: &str) -> (r: Vec<String>)
    ensures
        r@.map_values(|x: String| x@) == split_commas(s@),
{
    let n = s.unicode_len();
    let mut pieces: Vec<String> = Vec::new();
    let mut cur = String::new();
    let mut i: usize = 0;
    assert(s@.subrange(0, 0) =~= Seq::<char>::empty());
    assert(pieces@.map_values(|x: String| x@).push(cur@) =~= seq![Seq::<char>::empty()]);
    while i < n
        invariant
            n == s@.len(),
            i <= n,
            split_commas(s@.subrange(0, i as int)) == pieces@.map_values(|x: String| x@).push(cur@),
        decreases n - i,
    {
        let c = s.get_char(i);
        let ghost pv = pieces@.map_values(|x: String| x@);
        let ghost sub = s@.subrange(0, i + 1);
        assert(sub.drop_last() =~= s@.subrange(0, i as int));
        assert(sub.last() == c);
        if c == ',' {
            let done = cur;
            pieces.push(done);
            cur = String::new();
            assert(pieces@.map_values(|x: String| x@) =~= pv.push(done@));
            assert(split_commas(sub) =~= pieces@.map_values(|x: String| x@).push(cur@));
        } else {
            let ghost before = cur@;
            crate::text::push_char(&mut cur, c);
            assert(split_commas(sub) =~= pieces@.map_values(|x: String| x@).push(cur@));
        }
        i = i + 1;
    }
    assert(s@.subrange(0, n as int) =~= s@);
    let ghost pv = pieces@.map_values(|x: String| x@);
    let last = cur;
    pieces.push(last);
    assert(pieces@.map_values(|x: String| x@) =~= pv.push(last@));
    pieces
}

/// The parent list the reparent line holds (see `parent_list`).
fn parse_parent_list(buffer: &str) -> (r: Option<Vec<TaskId>>)
    ensures
        match parent_list(buffer@) {
            Some(ids) => r matches Some(v) && v@ == ids,
            None => r is None,
        },
{
    let t = trim_text(buffer);
    if t.unicode_len() == 0 {
        return Some(Vec::new());
    }
    let pieces = split_at_commas(t.as_str());
    let ghost ps = pieces@.map_values(|x: String| x@);
    let mut ids: Vec<TaskId> = Vec::new();
    let mut k: usize = 0;
    assert(ps.subrange(0, 0) =~= Seq::<Seq<char>>::empty());
    while k < pieces.len()
        invariant
            k <= pieces.len(),
            ps == pieces@.map_values(|x: String| x@),
            ps == split_commas(t@),
            t@ == trim_end(trim_start(buffer@)),
            t@.len() > 0,
            parse_pieces(ps.subrange(0, k as int)) == Some(ids@),
        decreases pieces.len() - k,
    {
        let ghost sub = ps.subrange(0, k + 1);
        assert(sub.drop_last() =~= ps.subrange(0, k as int));
        assert(sub.last() == pieces@[k as int]@);
        let piece = trim_text(pieces[k].as_str());
        match TaskId::parse_text(piece.as_str()) {
            Some(id) => {
                ids.push(id);
            },
            None => {
                proof {
                    assert(uuid_from_text(trim_end(trim_start(sub.last()))) is None);
                    assert(parse_pieces(sub) is None);
                    lemma_parse_prefix_none(ps, k + 1);
                    assert(parse_pieces(ps) is None);
                    assert(ps == split_commas(t@));
                }
                return None;
            },
        }
        k = k + 1;
    }
    assert(ps.subrange(0, pieces.len() as int) =~= ps);
    Some(ids)
}

/// `ids` hyphenated and comma-separated.
fn ids_csv_text(ids: &Vec<TaskId>) -> (s: String)
    ensures
        s@ == ids_csv(ids@),
{
    let mut s = String::new();
    let mut i: usize = 0;
    while i < ids.len()
        invariant
            i <= ids.len(),
            s@ == ids_csv(ids@.subrange(0, i as int)),
        decreases ids.len() - i,
    {
        let ghost sub = ids@.subrange(0, i + 1);
        assert(sub.drop_last() =~= ids@.subrange(0, i as int));
        assert(sub.last() == ids@[i as int]);
        if i > 0 {
            append_text(&mut s, ",");
        }
        let t = ids[i].to_text();
        append_text(&mut s, t.as_str());
        if i == 0 {
            assert(sub =~= seq![ids@[0]]);
            assert(s@ =~= ids_csv(sub));
        }
        i = i + 1;
    }
    assert(ids@.subrange(0, ids.len() as int) =~= ids@);
    s
}

/// The prompt asking whether a new subtask inherits from the parent
/// titled `title`.
fn inherit_prompt_text(title: &str) -> (s: String)
    ensures
        s@ == inherit_prompt(title@),
{
    let mut s = owned("Inherit assignee/dates from parent \"");
    append_text(&mut s, title);
    append_text(&mut s, "\"? (y/n)");
    s
}

/// `r` titled `title`.
fn row_with_title(r: &TaskRow, title: &str) -> (o: TaskRow)
    ensures
        o@ == (RowView { title: title@, ..r@ }),
{
    TaskRow {
        id: r.id,
        title: owned(title),
        type_label: r.type_label.clone(),
        status: r.status,
        assignee_name: crate::model::copy_opt_text(&r.assignee_name),
        depth: r.depth,
        has_children: r.has_children,
        collapsed: r.collapsed,
        direct_summary: r.direct_summary,
    }
}

/// Titles the first row showing `id`.
fn retitle_row(rows: &mut Vec<TaskRow>, id: TaskId, title: &str)
    ensures
        row_views(final(rows)@) == retitled(row_views(old(rows)@), id, title@),
{
    let ghost rv = row_views(rows@);
    let mut i: usize = 0;
    while i < rows.len()
        invariant
            i <= rows.len(),
            *rows == *old(rows),
            rv == row_views(rows@),
            row_pos(rv, id, 0) == row_pos(rv, id, i as int),
        decreases rows.len() - i,
    {
        assert(rv[i as int] == rows@[i as int]@);
        if rows[i].id == id {
            let r = row_with_title(&rows[i], title);
            rows.set(i, r);
            assert(row_views(rows@) =~= rv.update(i as int, RowView { title: title@, ..rv[i as int] }));
            return;
        }
        i = i + 1;
    }
}

/// A request for a task titled `title` under `parents` (none: top level).
fn title_request(title: String, parent: Option<TaskId>) -> (n: NewTask)
    ensures
        title_only(n, title@, match parent {
            Some(p) => seq![p],
            None => seq![],
        }),
{
    let mut parent_ids: Vec<TaskId> = Vec::new();
    if let Some(p) = parent {
        parent_ids.push(p);
    }
    proof {
        if let Some(p) = parent {
            assert(parent_ids@ =~= seq![p]);
        } else {
            assert(parent_ids@ =~= Seq::<TaskId>::empty());
        }
    }
    NewTask {
        title,
        description: None,
        parent_ids,
        type_key: None,
        start_date: None,
        due_date: None,
        assignee_id: None,
    }
}

impl App {
    /// Records `d` as the description of `id`.
    fn set_description(&mut self, id: TaskId, d: Option<String>)
        ensures
            final(self)@ == (AppView { descriptions: with_desc(old(self)@.descriptions, id, opt_view(d)), ..old(self)@ }),
    {
        let ghost ds = self@.descriptions;
        let ghost a0 = self@;
        let mut i: usize = 0;
        while i < self.descriptions.len()
            invariant
                i <= self.descriptions.len(),
                *self == *old(self),
                a0 == old(self)@,
                ds == desc_views(self.descriptions@),
                desc_pos(ds, id, 0) == desc_pos(ds, id, i as int),
            decreases self.descriptions.len() - i,
        {
            assert(ds[i as int] == (self.descriptions@[i as int].0, opt_view(self.descriptions@[i as int].1)));
            if self.descriptions[i].0 == id {
                let ghost dv = opt_view(d);
                self.descriptions.set(i, (id, d));
                assert(desc_views(self.descriptions@) =~= ds.update(i as int, (id, dv)));
                return;
            }
            i = i + 1;
        }
        let ghost dv = opt_view(d);
        self.descriptions.push((id, d));
        assert(desc_views(self.descriptions@) =~= ds.push((id, dv)));
    }

    /// Opens the edit line on the selected task's parents (`parents`) or
    /// type key, read fresh from `core`.
    fn start_field_edit(&mut self, core: &Core, parents: bool)
        ensures
            start_edit_spec(old(self)@, core@, final(self)@, parents),
    {
        let id = match self.selected_id() {
            Some(id) => id,
            None => {
                return;
            },
        };
        let t = match core.get_task(id) {
            Ok(Some(t)) => t,
            Ok(None) => {
                return;
            },
            Err(e) => {
                self.error = Some(e.message());
                return;
            },
        };
        if parents {
            let buffer = ids_csv_text(&t.parent_ids);
            self.mode = Mode::Insert { field: EditableField::Parents(id), buffer };
        } else {
            let buffer = t.type_key;
            self.mode = Mode::Insert { field: EditableField::TypeKey(id), buffer };
        }
        self.error = None;
    }

    /// Creates the task the edit line names (a subtask under `parent` when
    /// given).
    fn submit_new_task(&mut self, core: &mut Core, buffer: String, parent: Option<TaskId>)
        ensures
            exists|n: NewTask, r: Result<TaskView, CoreError>|
                title_only(n, buffer@, match parent {
                    Some(p) => seq![p],
                    None => seq![],
                }) && #[trigger] creation(old(core)@, final(core)@, n, r) && final(self)@ == after_create(
                    old(self)@,
                    final(core)@,
                    parent,
                    r,
                ),
    {
        let ghost c0 = core@;
        let ghost a0 = self@;
        let n = title_request(buffer, parent);
        let ghost nn = n;
        match core.create_task(n) {
            Ok(t) => {
                let ghost tv = t@;
                proof {
                    assert(creation(c0, core@, nn, Ok(tv)));
                }
                self.error = None;
                self.refresh_from_tree(core, Some(t.id));
                match parent {
                    Some(pid) => {
                        match core.get_task(pid) {
                            Ok(Some(p)) => {
                                if p.assignee_id.is_some() || p.start_date.is_some() || p.due_date.is_some() {
                                    let prompt = inherit_prompt_text(p.title.as_str());
                                    self.mode = Mode::Confirm {
                                        prompt,
                                        action: PendingAction::InheritFromParent { child: t.id, parent: pid },
                                    };
                                } else {
                                    self.mode = Mode::Normal;
                                }
                            },
                            Ok(None) => {
                                self.mode = Mode::Normal;
                            },
                            Err(e) => {
                                self.error = Some(e.message());
                                self.mode = Mode::Normal;
                            },
                        }
                    },
                    None => {
                        self.mode = Mode::Normal;
                    },
                }
                assert(self@ == after_create(a0, core@, parent, Ok(tv)));
            },
            Err(e) => {
                proof {
                    assert(creation(c0, core@, nn, Err(e)));
                }
                self.error = Some(e.message());
            },
        }
    }
}

impl App {
    /// Sets the title of task `id` from the edit line.
    fn submit_edit_title(&mut self, core: &mut Core, id: TaskId, buffer: String)
        ensures
            exists|p: TaskPatch, r: Result<Seq<TaskView>, CoreError>|
                title_patch(p, buffer@) && #[trigger] updating(old(core)@, final(core)@, id, p, r) && final(self)@
                    == match r {
                    Ok(_) => AppView {
                        mode: ModeView::Normal,
                        error: None,
                        rows: retitled(old(self)@.rows, id, buffer@),
                        ..old(self)@
                    },
                    Err(e) => failed(old(self)@, e),
                },
    {
        let ghost c0 = core@;
        let patch = TaskPatch {
            title: Field::Assign(buffer.clone()),
            description: Field::Keep,
            start_date: Field::Keep,
            due_date: Field::Keep,
            assignee_id: Field::Keep,
            type_key: Field::Keep,
        };
        let ghost pp = patch;
        match core.update_task(id, patch) {
            Ok(v) => {
                proof {
                    assert(crate::facade::views(v@) =~= task_views(v@));
                    assert(updating(c0, core@, id, pp, Ok(task_views(v@))));
                }
                retitle_row(&mut self.rows, id, buffer.as_str());
                self.mode = Mode::Normal;
                self.error = None;
            },
            Err(e) => {
                proof {
                    assert(updating(c0, core@, id, pp, Err(e)));
                }
                self.error = Some(e.message());
            },
        }
    }

    /// Sets the description of task `id` from the edit line.
    fn submit_edit_description(&mut self, core: &mut Core, id: TaskId, buffer: String)
        ensures
            exists|p: TaskPatch, r: Result<Seq<TaskView>, CoreError>|
                description_patch(p, buffer@) && #[trigger] updating(old(core)@, final(core)@, id, p, r)
                    && final(self)@ == match r {
                    Ok(_) => AppView {
                        mode: ModeView::Normal,
                        error: None,
                        descriptions: with_desc(old(self)@.descriptions, id, Some(buffer@)),
                        ..old(self)@
                    },
                    Err(e) => failed(old(self)@, e),
                },
    {
        let ghost c0 = core@;
        let patch = TaskPatch {
            title: Field::Keep,
            description: Field::Assign(buffer.clone()),
            start_date: Field::Keep,
            due_date: Field::Keep,
            assignee_id: Field::Keep,
            type_key: Field::Keep,
        };
        let ghost pp = patch;
        match core.update_task(id, patch) {
            Ok(v) => {
                proof {
                    assert(crate::facade::views(v@) =~= task_views(v@));
                    assert(updating(c0, core@, id, pp, Ok(task_views(v@))));
                }
                self.set_description(id, Some(buffer));
                self.mode = Mode::Normal;
                self.error = None;
            },
            Err(e) => {
                proof {
                    assert(updating(c0, core@, id, pp, Err(e)));
                }
                self.error = Some(e.message());
            },
        }
    }

    /// Sets the type of task `id` from the edit line.
    fn submit_set_type(&mut self, core: &mut Core, id: TaskId, buffer: String)
        ensures
            exists|p: TaskPatch, r: Result<Seq<TaskView>, CoreError>|
                type_patch(p, buffer@) && #[trigger] updating(old(core)@, final(core)@, id, p, r) && final(self)@
                    == match r {
                    Ok(_) => AppView {
                        mode: ModeView::Normal,
                        ..refresh_tree(AppView { error: None, ..old(self)@ }, final(core)@, Some(id))
                    },
                    Err(e) => failed(old(self)@, e),
                },
    {
        let ghost c0 = core@;
        let patch = TaskPatch {
            title: Field::Keep,
            description: Field::Keep,
            start_date: Field::Keep,
            due_date: Field::Keep,
            assignee_id: Field::Keep,
            type_key: Field::Assign(buffer),
        };
        let ghost pp = patch;
        match core.update_task(id, patch) {
            Ok(v) => {
                proof {
                    assert(crate::facade::views(v@) =~= task_views(v@));
                    assert(updating(c0, core@, id, pp, Ok(task_views(v@))));
                }
                self.error = None;
                self.refresh_from_tree(core, Some(id));
                self.mode = Mode::Normal;
            },
            Err(e) => {
                proof {
                    assert(updating(c0, core@, id, pp, Err(e)));
                }
                self.error = Some(e.message());
            },
        }
    }

    /// Replaces the parents of task `id` with the ids the edit line lists.
    fn submit_reparent(&mut self, core: &mut Core, id: TaskId, buffer: &str)
        ensures
            match parent_list(buffer@) {
                None => final(core)@ == old(core)@ && final(self)@ == (AppView {
                    error: Some("invalid task id in parent list"@),
                    ..old(self)@
                }),
                Some(ids) => exists|r: Result<TaskView, CoreError>|
                    #[trigger] reparenting(old(core)@, final(core)@, id, ids, r) && final(self)@ == match r {
                        Ok(_) => AppView {
                            mode: ModeView::Normal,
                            ..refresh_tree(AppView { error: None, ..old(self)@ }, final(core)@, Some(id))
                        },
                        Err(e) => failed(old(self)@, e),
                    },
            },
    {
        let ghost c0 = core@;
        let ids = match parse_parent_list(buffer) {
            Some(ids) => ids,
            None => {
                self.error = Some(owned("invalid task id in parent list"));
                return;
            },
        };
        let ghost iv = ids@;
        match core.set_parents(id, ids) {
            Ok(t) => {
                proof {
                    assert(reparenting(c0, core@, id, iv, Ok(t@)));
                }
                self.error = None;
                self.refresh_from_tree(core, Some(id));
                self.mode = Mode::Normal;
            },
            Err(e) => {
                proof {
                    assert(reparenting(c0, core@, id, iv, Err(e)));
                }
                self.error = Some(e.message());
            },
        }
    }

    /// Submits the edit line (see `submit_spec`).
    fn submit_insert(&mut self, core: &mut Core)
        ensures
            submit_spec(old(self)@, old(core)@, final(core)@, final(self)@),
    {
        let (field, buffer) = match &self.mode {
            Mode::Insert { field, buffer } => (*field, buffer.clone()),
            _ => {
                return;
            },
        };
        match field {
            EditableField::NewTitle => self.submit_new_task(core, buffer, None),
            EditableField::NewSubtaskTitle(pid) => self.submit_new_task(core, buffer, Some(pid)),
            EditableField::Title(id) => self.submit_edit_title(core, id, buffer),
            EditableField::Description(id) => self.submit_edit_description(core, id, buffer),
            EditableField::TypeKey(id) => self.submit_set_type(core, id, buffer),
            EditableField::Parents(id) => self.submit_reparent(core, id, buffer.as_str()),
        }
    }
}

/// What one action does to the app and to `Core`, once a pending `d` is
/// cleared (a `d` stays pending only across the `d` right after it), and
/// whether the event loop goes on.
pub open spec fn action_spec(
    a: AppView,
    c0: StoreView,
    c1: StoreView,
    action: Action,
    a1: AppView,
    flow: ControlFlow<(), ()>,
) -> bool {
    let b = AppView { pending_d: false, ..a };
    &&& flow == (if action is Quit {
        ControlFlow::<(), ()>::Break(())
    } else {
        ControlFlow::<(), ()>::Continue(())
    })
    &&& match action {
        Action::StartReparent => c1 == c0 && start_edit_spec(b, c0, a1, true),
        Action::StartSetType => c1 == c0 && start_edit_spec(b, c0, a1, false),
        Action::ToggleComplete => toggle_spec(b, c0, c1, a1),
        Action::SubmitInsert => submit_spec(b, c0, c1, a1),
        Action::ConfirmYes => confirm_spec(b, c0, c1, a1),
        _ => c1 == c0 && a1 == view_step(b, action, a.pending_d),
    }
}

/// Applies one action to `app`, calling through to `core` for the actions
/// that need it (see `action_spec`). Reordering and indenting tasks, and the
/// type filter, have no effect here.
pub fn apply_action(app: &mut App, core: &mut Core, action: Action) -> (flow: ControlFlow<(), ()>)
    ensures
        action_spec(old(app)@, old(core)@, final(core)@, action, final(app)@, flow),
{
    let was_pending_d = app.pending_d;
    app.pending_d = false;
    match action {
        Action::Quit => {
            return ControlFlow::Break(());
        },
        Action::StartReparent => app.start_field_edit(core, true),
        Action::StartSetType => app.start_field_edit(core, false),
        Action::ToggleComplete => app.toggle_complete(core),
        Action::SubmitInsert => app.submit_insert(core),
        Action::ConfirmYes => app.confirm_yes(core),
        _ => app.view_only_step(action, was_pending_d),
    }
    ControlFlow::Continue(())
}

/// Maps `code` to an action in the app's mode, pane and Detail-pane field,
/// and applies it.
pub fn handle_key(app: &mut App, core: &mut Core, code: KeyCode) -> (flow: ControlFlow<(), ()>)
    ensures
        exists|m: Mode|
            m@ == old(app)@.mode && #[trigger] action_spec(
                old(app)@,
                old(core)@,
                final(core)@,
                key_action(m, old(app)@.pane, old(app)@.detail_field, code),
                final(app)@,
                flow,
            ),
{
    let action = key_to_action(app.mode(), app.pane(), app.detail_field(), code);
    let ghost m = app.mode;
    apply_action(app, core, action)
}

} // verus!
