//! The command-line commands over a `Core`: what each command computes and
//! the lines it prints. Reading arguments, opening the database, asking for
//! confirmation and printing are left to the caller.

use vstd::prelude::*;

use crate::error::{core_error_message, CoreError, StoreError};
use crate::facade::{
    any_rows, create_error, create_ok, created, delete_touched, deleted_state, ids_of, live_children,
    shown, shown_all, to_complete, completed_state, open_descendants, views, Core,
};
use crate::ids::{Date, TaskId, UserId};
use crate::model::{
    DeleteMode, Field, NewTask, Task, TaskPatch, TaskStatus, TaskType, TaskTypeView, TaskView,
    TreeFilter, User, UserView,
};
use crate::store::{
    any_task, id_in_use, live_task, listed, type_row, upsert_type, upsert_user, user_row, StoreView,
};
use crate::facade::live_rows;
use crate::text::{append_text, decimal, decimal_text, hyphenated, is_blank, is_white, owned, push_char};

verus! {

// ---------------------------------------------------------------------------
// Arguments.
// ---------------------------------------------------------------------------

/// `task add`.
pub struct AddArgs {
    pub title: String,
    pub description: Option<String>,
    /// The new task's parents (given several times for several parents).
    pub parent: Vec<TaskId>,
    pub start: Option<Date>,
    pub due: Option<Date>,
    pub assignee: Option<UserId>,
    /// Copy the assignee and dates the command leaves unset from the first
    /// parent.
    pub inherit: bool,
    pub type_key: Option<String>,
}

/// `task ls`.
pub struct LsArgs {
    /// Only tasks of this type.
    pub type_key: Option<String>,
}

/// `task edit`.
pub struct EditArgs {
    pub id: TaskId,
    pub title: Option<String>,
    pub description: Option<String>,
    pub clear_description: bool,
    pub start: Option<Date>,
    pub clear_start: bool,
    pub due: Option<Date>,
    pub clear_due: bool,
    pub assignee: Option<UserId>,
    pub clear_assignee: bool,
    pub type_key: Option<String>,
}

/// `task delete`.
pub struct DeleteArgs {
    pub id: TaskId,
    /// Skip the confirmation prompt.
    pub yes: bool,
    /// Delete the whole subtree.
    pub cascade: bool,
    /// Move the children to the task's own parents.
    pub promote_children: bool,
}

/// `task restore`.
pub struct RestoreArgs {
    pub id: TaskId,
}

/// `task complete`.
pub struct CompleteArgs {
    pub id: TaskId,
    /// Also complete every incomplete descendant.
    pub cascade: bool,
}

/// `task reopen`.
pub struct ReopenArgs {
    pub id: TaskId,
}

/// `task mv`.
pub struct MvArgs {
    pub id: TaskId,
    /// The new parents; none makes the task top level.
    pub parents: Vec<TaskId>,
}

/// The task subcommands.
pub enum TaskCommands {
    Add(AddArgs),
    Ls(LsArgs),
    Edit(EditArgs),
    Delete(DeleteArgs),
    Restore(RestoreArgs),
    Complete(CompleteArgs),
    Reopen(ReopenArgs),
    Mv(MvArgs),
}

/// `task` and its subcommand.
pub struct TaskArgs {
    pub command: TaskCommands,
}

/// `user add`.
pub struct UserAddArgs {
    pub name: String,
}

/// The user subcommands.
pub enum UserCommands {
    Add(UserAddArgs),
    Ls,
}

/// `user` and its subcommand.
pub struct UserArgs {
    pub command: UserCommands,
}

/// `type set`.
pub struct TypeSetArgs {
    pub key: String,
    pub label: String,
    pub color: Option<String>,
    pub sort_order: Option<i32>,
}

/// The task-type subcommands.
pub enum TypeCommands {
    Ls,
    SetType(TypeSetArgs),
}

/// `type` and its subcommand.
pub struct TypeArgs {
    pub command: TypeCommands,
}

// ---------------------------------------------------------------------------
// Errors.
// ---------------------------------------------------------------------------

/// Why a command failed.
#[derive(Debug)]
pub enum CliError {
    /// The database at `path` could not be opened.
    OpenStore { path: String, source: StoreError },
    Core(CoreError),
    /// The task has subtasks and no delete mode was chosen.
    NeedsDeleteMode { title: String, children: Vec<Task> },
    /// Reading the confirmation failed.
    Io(String),
    /// The terminal failed.
    TerminalIo(String),
}

/// The listing of `children` a `NeedsDeleteMode` error shows: one
/// `"\n  <id> <title>"` line each.
pub open spec fn children_listing(children: Seq<TaskView>) -> Seq<char>
    decreases children.len(),
{
    if children.len() == 0 {
        seq![]
    } else {
        children_listing(children.drop_last()) + "\n  "@ + hyphenated(children.last().id.value)
            + " "@ + children.last().title
    }
}

/// The message of a command error.
pub open spec fn cli_error_message(e: CliError) -> Seq<char> {
    match e {
        CliError::OpenStore { path, source } => "failed to open database at "@ + path@ + ": "@
            + crate::error::store_error_message(source),
        CliError::Core(c) => core_error_message(c),
        CliError::NeedsDeleteMode { title, children } => "task "@ + crate::error::str_debug(title@)
            + " has subtasks that must be handled; pass --cascade or --promote-children:"@
            + children_listing(children@.map_values(|t: Task| t@)),
        CliError::Io(m) => "failed to read confirmation from stdin: "@ + m@,
        CliError::TerminalIo(m) => "terminal I/O error: "@ + m@,
    }
}

impl CliError {
    /// The error's message.
    pub fn message(&self) -> (s: String)
        ensures
            s@ == cli_error_message(*self),
    {
        match self {
            CliError::OpenStore { path, source } => {
                let mut s = owned("failed to open database at ");
                append_text(&mut s, path.as_str());
                append_text(&mut s, ": ");
                let m = source.message();
                append_text(&mut s, m.as_str());
                s
            },
            CliError::Core(c) => c.message(),
            CliError::NeedsDeleteMode { title, children } => {
                let mut s = owned("task ");
                let q = crate::error::debug_quote(title.as_str());
                append_text(&mut s, q.as_str());
                append_text(
                    &mut s,
                    " has subtasks that must be handled; pass --cascade or --promote-children:",
                );
                let ghost views = children@.map_values(|t: Task| t@);
                let ghost head = s@;
                let mut i: usize = 0;
                while i < children.len()
                    invariant
                        i <= children.len(),
                        views == children@.map_values(|t: Task| t@),
                        s@ == head + children_listing(views.subrange(0, i as int)),
                    decreases children.len() - i,
                {
                    let ghost sub = views.subrange(0, i + 1);
                    assert(sub.drop_last() == views.subrange(0, i as int));
                    assert(sub.last() == children@[i as int]@);
                    append_text(&mut s, "\n  ");
                    let t = children[i].id.to_text();
                    append_text(&mut s, t.as_str());
                    append_text(&mut s, " ");
                    append_text(&mut s, children[i].title.as_str());
                    i = i + 1;
                }
                assert(views.subrange(0, children.len() as int) == views);
                s
            },
            CliError::Io(m) => {
                let mut s = owned("failed to read confirmation from stdin: ");
                append_text(&mut s, m.as_str());
                s
            },
            CliError::TerminalIo(m) => {
                let mut s = owned("terminal I/O error: ");
                append_text(&mut s, m.as_str());
                s
            },
        }
    }
}

// ---------------------------------------------------------------------------
// Pure helpers.
// ---------------------------------------------------------------------------

/// A patch field from a command value and its `--clear-*` flag: `Assign`
/// when a value was given, else `Clear` when the flag was, else `Keep`.
pub fn field_from<T>(value: Option<T>, clear: bool) -> (f: Field<T>)
    ensures
        match value {
            Some(v) => f == Field::Assign(v),
            None => if clear {
                f == Field::<T>::Clear
            } else {
                f == Field::<T>::Keep
            },
        },
{
    match value {
        Some(v) => Field::Assign(v),
        None => if clear {
            Field::Clear
        } else {
            Field::Keep
        },
    }
}

/// The one-line summary the task commands print:
/// `"{indent}[{marker}] {id} {title} (type: {type key}){assignee}"`; the indent is two spaces
/// for a task with parents, the marker `x` for a complete task, and the
/// assignee suffix ` (assigned: {name})` when the assignee is a known user.
pub open spec fn task_line(t: TaskView, users: Seq<UserView>) -> Seq<char> {
    (if t.parent_ids.len() == 0 {
        ""@
    } else {
        "  "@
    }) + "["@ + seq![if t.status == TaskStatus::Complete { 'x' } else { ' ' }] + "] "@
        + hyphenated(t.id.value) + " "@ + t.title + " (type: "@ + t.type_key + ")"@ + match t.assignee_id {
        Some(a) => match user_row(users, a) {
            Some(u) => " (assigned: "@ + u.name + ")"@,
            None => ""@,
        },
        None => ""@,
    }
}

/// The views of a list of users.
pub open spec fn user_views(us: Seq<User>) -> Seq<UserView> {
    us.map_values(|u: User| u@)
}

/// The name of the last of `users` with `id`.
fn name_of(users: &Vec<User>, id: UserId) -> (r: Option<String>)
    ensures
        match user_row(user_views(users@), id) {
            Some(u) => r matches Some(n) && n@ == u.name,
            None => r is None,
        },
{
    let ghost vs = user_views(users@);
    let mut i = users.len();
    proof {
        assert(vs.subrange(0, i as int) == vs);
    }
    while i > 0
        invariant
            i <= users.len(),
            vs == user_views(users@),
            crate::store::user_index(vs, id) == crate::store::user_index(vs.subrange(0, i as int), id),
        decreases i,
    {
        let ghost sub = vs.subrange(0, i as int);
        assert(sub.last() == users@[i - 1]@);
        assert(sub.drop_last() == vs.subrange(0, i - 1));
        if users[i - 1].id == id {
            proof {
                crate::store::lemma_user_index_bounds(vs, id);
            }
            return Some(users[i - 1].name.clone());
        }
        i = i - 1;
    }
    None
}

/// Renders the one-line task summary (see `task_line`); `users` resolves
/// the assignee's name.
pub fn format_task_line(task: &Task, users: &Vec<User>) -> (s: String)
    ensures
        s@ == task_line(task@, user_views(users@)),
{
    let mut s = if task.parent_ids.len() == 0 {
        owned("")
    } else {
        owned("  ")
    };
    proof {
        reveal_strlit("");
    }
    append_text(&mut s, "[");
    push_char(
        &mut s,
        if task.status == TaskStatus::Complete {
            'x'
        } else {
            ' '
        },
    );
    assert(s@ =~= (if task.parent_ids.len() == 0 {
        ""@
    } else {
        "  "@
    }) + "["@ + seq![if task.status == TaskStatus::Complete { 'x' } else { ' ' }]);
    append_text(&mut s, "] ");
    let idt = task.id.to_text();
    append_text(&mut s, idt.as_str());
    append_text(&mut s, " ");
    append_text(&mut s, task.title.as_str());
    append_text(&mut s, " (type: ");
    append_text(&mut s, task.type_key.as_str());
    append_text(&mut s, ")");
    let ghost base = s@;
    match task.assignee_id {
        Some(a) => match name_of(users, a) {
            Some(n) => {
                append_text(&mut s, " (assigned: ");
                append_text(&mut s, n.as_str());
                append_text(&mut s, ")");
                assert(s@ =~= base + (" (assigned: "@ + n@ + ")"@));
            },
            None => {
                assert(s@ =~= base + ""@);
            },
        },
        None => {
            assert(s@ =~= base + ""@);
        },
    }
    s
}

/// The one-line summary of a task type:
/// `"<key> <label>[ color=<color>] sort_order=<n>"`.
pub open spec fn type_line(t: TaskTypeView) -> Seq<char> {
    t.key + " "@ + t.label + match t.color {
        Some(c) => " color="@ + c,
        None => ""@,
    } + " sort_order="@ + decimal(t.sort_order as int)
}

/// Renders the one-line summary of a task type (see `type_line`).
pub fn format_type_line(t: &TaskType) -> (s: String)
    ensures
        s@ == type_line(t@),
{
    proof {
        reveal_strlit("");
    }
    let mut s = t.key.clone();
    append_text(&mut s, " ");
    append_text(&mut s, t.label.as_str());
    let ghost base = s@;
    match &t.color {
        Some(c) => {
            append_text(&mut s, " color=");
            append_text(&mut s, c.as_str());
            assert(s@ =~= base + (" color="@ + c@));
        },
        None => {
            assert(s@ =~= base + ""@);
        },
    }
    append_text(&mut s, " sort_order=");
    let n = decimal_text(t.sort_order as i64);
    append_text(&mut s, n.as_str());
    s
}

/// The first of `types` with `key`.
pub open spec fn first_type(types: Seq<TaskTypeView>, key: Seq<char>) -> Option<TaskTypeView>
    decreases types.len(),
{
    if types.len() == 0 {
        None
    } else if types[0].key == key {
        Some(types[0])
    } else {
        first_type(types.drop_first(), key)
    }
}

/// What `type set` writes: the label given; the color and sort order given,
/// else those of the existing type with the key, else none and `0`.
pub open spec fn merged_type(existing: Option<TaskTypeView>, a: TypeSetArgs) -> TaskTypeView {
    TaskTypeView {
        key: a.key@,
        label: a.label@,
        color: match a.color {
            Some(c) => Some(c@),
            None => match existing {
                Some(e) => e.color,
                None => None,
            },
        },
        sort_order: match a.sort_order {
            Some(n) => n,
            None => match existing {
                Some(e) => e.sort_order,
                None => 0,
            },
        },
    }
}

/// Merges `args` onto `existing` (see `merged_type`).
pub fn merge_type(existing: Option<TaskType>, args: TypeSetArgs) -> (t: TaskType)
    ensures
        t@ == merged_type(
            match existing {
                Some(e) => Some(e@),
                None => None,
            },
            args,
        ),
{
    match existing {
        Some(e) => TaskType {
            key: args.key,
            label: args.label,
            color: match args.color {
                Some(c) => Some(c),
                None => e.color,
            },
            sort_order: match args.sort_order {
                Some(n) => n,
                None => e.sort_order,
            },
        },
        None => TaskType {
            key: args.key,
            label: args.label,
            color: args.color,
            sort_order: match args.sort_order {
                Some(n) => n,
                None => 0,
            },
        },
    }
}

/// The first of `types` with `key`, as a value.
fn find_type(types: &Vec<TaskType>, key: &str) -> (r: Option<TaskType>)
    ensures
        match first_type(types@.map_values(|t: TaskType| t@), key@) {
            Some(t) => r matches Some(x) && x@ == t,
            None => r is None,
        },
{
    let ghost vs = types@.map_values(|t: TaskType| t@);
    let mut i: usize = 0;
    assert(vs.subrange(0, vs.len() as int) == vs);
    while i < types.len()
        invariant
            i <= types.len(),
            vs == types@.map_values(|t: TaskType| t@),
            first_type(vs, key@) == first_type(vs.subrange(i as int, vs.len() as int), key@),
        decreases types.len() - i,
    {
        let ghost rest = vs.subrange(i as int, vs.len() as int);
        assert(rest[0] == types@[i as int]@);
        assert(rest.drop_first() == vs.subrange(i + 1, vs.len() as int));
        if crate::text::same_text(types[i].key.as_str(), key) {
            return Some(types[i].duplicate());
        }
        i = i + 1;
    }
    assert(vs.subrange(i as int, vs.len() as int).len() == 0);
    None
}

/// The text with leading and trailing white space removed.
pub open spec fn trim_start(s: Seq<char>) -> Seq<char>
    decreases s.len(),
{
    if s.len() > 0 && is_white(s[0]) {
        trim_start(s.drop_first())
    } else {
        s
    }
}

pub open spec fn trim_end(s: Seq<char>) -> Seq<char>
    decreases s.len(),
{
    if s.len() > 0 && is_white(s.last()) {
        trim_end(s.drop_last())
    } else {
        s
    }
}

/// A confirmation answer says yes: `y` or `yes` in any mix of cases, once
/// leading and trailing white space is removed.
pub open spec fn says_yes(answer: Seq<char>) -> bool {
    let t = trim_end(trim_start(answer));
    ||| t.len() == 1 && (t[0] == 'y' || t[0] == 'Y')
    ||| t.len() == 3 && (t[0] == 'y' || t[0] == 'Y') && (t[1] == 'e' || t[1] == 'E') && (t[2]
        == 's' || t[2] == 'S')
}

/// Where the text starts once leading white space is dropped.
fn trim_start_at(s: &str) -> (lo: usize)
    ensures
        lo <= s@.len(),
        trim_start(s@) == s@.subrange(lo as int, s@.len() as int),
{
    let n = s.unicode_len();
    let mut lo: usize = 0;
    assert(s@.subrange(0, n as int) == s@);
    while lo < n
        invariant
            n == s@.len(),
            lo <= n,
            trim_start(s@) == trim_start(s@.subrange(lo as int, n as int)),
        decreases n - lo,
    {
        let c = s.get_char(lo);
        let ghost rest = s@.subrange(lo as int, n as int);
        assert(rest[0] == c);
        if !crate::text::is_white_char(c) {
            return lo;
        }
        assert(rest.drop_first() == s@.subrange(lo + 1, n as int));
        lo = lo + 1;
    }
    lo
}

/// Where the text ends once trailing white space after `lo` is dropped.
fn trim_end_at(s: &str, lo: usize) -> (hi: usize)
    requires
        lo <= s@.len(),
    ensures
        lo <= hi <= s@.len(),
        trim_end(s@.subrange(lo as int, s@.len() as int)) == s@.subrange(lo as int, hi as int),
{
    let n = s.unicode_len();
    let mut hi: usize = n;
    while hi > lo
        invariant
            n == s@.len(),
            lo <= hi <= n,
            trim_end(s@.subrange(lo as int, n as int)) == trim_end(s@.subrange(lo as int, hi as int)),
        decreases hi,
    {
        let c = s.get_char(hi - 1);
        let ghost part = s@.subrange(lo as int, hi as int);
        assert(part.last() == c);
        if !crate::text::is_white_char(c) {
            return hi;
        }
        assert(part.drop_last() == s@.subrange(lo as int, hi - 1));
        hi = hi - 1;
    }
    hi
}

/// The text with leading and trailing white space removed.
pub fn trim_text(s: &str) -> (t: String)
    ensures
        t@ == trim_end(trim_start(s@)),
{
    let lo = trim_start_at(s);
    let hi = trim_end_at(s, lo);
    owned(s.substring_char(lo, hi))
}

/// Whether a confirmation answer says yes (see `says_yes`).
pub fn is_affirmative(answer: &str) -> (r: bool)
    ensures
        r == says_yes(answer@),
{
    let lo = trim_start_at(answer);
    let hi = trim_end_at(answer, lo);
    let ghost t = answer@.subrange(lo as int, hi as int);
    assert(trim_end(trim_start(answer@)) == t);
    let len = hi - lo;
    if len == 1 {
        let a = answer.get_char(lo);
        assert(t[0] == a);
        a == 'y' || a == 'Y'
    } else if len == 3 {
        let a = answer.get_char(lo);
        let b = answer.get_char(lo + 1);
        let c = answer.get_char(lo + 2);
        assert(t[0] == a && t[1] == b && t[2] == c);
        (a == 'y' || a == 'Y') && (b == 'e' || b == 'E') && (c == 's' || c == 'S')
    } else {
        false
    }
}

/// Which delete mode `task delete` uses: the subtree with `--cascade`,
/// promotion with `--promote-children`, the subtree for a task without
/// children, and none (the user must choose) otherwise.
pub open spec fn delete_mode_for(args: DeleteArgs, has_children: bool) -> Option<DeleteMode> {
    if args.cascade {
        Some(DeleteMode::Subtree)
    } else if args.promote_children {
        Some(DeleteMode::PromoteChildren)
    } else if !has_children {
        Some(DeleteMode::Subtree)
    } else {
        None
    }
}

pub fn choose_delete_mode(args: &DeleteArgs, has_children: bool) -> (r: Option<DeleteMode>)
    ensures
        r == delete_mode_for(*args, has_children),
{
    if args.cascade {
        Some(DeleteMode::Subtree)
    } else if args.promote_children {
        Some(DeleteMode::PromoteChildren)
    } else if !has_children {
        Some(DeleteMode::Subtree)
    } else {
        None
    }
}


// ---------------------------------------------------------------------------
// Commands.
// ---------------------------------------------------------------------------

/// The views of a list of lines.
pub open spec fn line_views(ls: Seq<String>) -> Seq<Seq<char>> {
    ls.map_values(|l: String| l@)
}

/// The summary line of each task.
pub open spec fn task_lines(ts: Seq<TaskView>, users: Seq<UserView>) -> Seq<Seq<char>> {
    ts.map_values(|t: TaskView| task_line(t, users))
}

/// `"<id> <name>"` for a user.
pub open spec fn user_line(u: UserView) -> Seq<char> {
    hyphenated(u.id.value) + " "@ + u.name
}

fn push_line(lines: &mut Vec<String>, l: String)
    ensures
        line_views(final(lines)@) == line_views(old(lines)@).push(l@),
        final(lines)@ == old(lines)@.push(l),
{
    let ghost before = lines@;
    lines.push(l);
    assert(line_views(lines@) =~= line_views(before).push(l@));
}

/// The summary lines of `tasks`, naming assignees from `users`.
fn task_lines_of(tasks: &Vec<Task>, users: &Vec<User>) -> (r: Vec<String>)
    ensures
        line_views(r@) == task_lines(views(tasks@), user_views(users@)),
{
    let mut r: Vec<String> = Vec::new();
    let mut i: usize = 0;
    while i < tasks.len()
        invariant
            i <= tasks.len(),
            line_views(r@) == task_lines(views(tasks@).subrange(0, i as int), user_views(users@)),
        decreases tasks.len() - i,
    {
        let l = format_task_line(&tasks[i], users);
        push_line(&mut r, l);
        assert(task_lines(views(tasks@).subrange(0, i + 1), user_views(users@)) =~= task_lines(
            views(tasks@).subrange(0, i as int),
            user_views(users@),
        ).push(task_line(tasks@[i as int]@, user_views(users@))));
        i = i + 1;
    }
    assert(views(tasks@).subrange(0, tasks.len() as int) =~= views(tasks@));
    r
}

/// The id line of each task.
fn id_lines(tasks: &Vec<Task>) -> (r: Vec<String>)
    ensures
        line_views(r@) == views(tasks@).map_values(|t: TaskView| hyphenated(t.id.value)),
{
    let mut r: Vec<String> = Vec::new();
    let mut i: usize = 0;
    while i < tasks.len()
        invariant
            i <= tasks.len(),
            line_views(r@) == views(tasks@).subrange(0, i as int).map_values(
                |t: TaskView| hyphenated(t.id.value),
            ),
        decreases tasks.len() - i,
    {
        let l = tasks[i].id.to_text();
        push_line(&mut r, l);
        assert(views(tasks@).subrange(0, i + 1).map_values(|t: TaskView| hyphenated(t.id.value))
            =~= views(tasks@).subrange(0, i as int).map_values(
            |t: TaskView| hyphenated(t.id.value),
        ).push(hyphenated(tasks@[i as int].id.value)));
        i = i + 1;
    }
    assert(views(tasks@).subrange(0, tasks.len() as int) =~= views(tasks@));
    r
}

/// Runs a user command: `add` creates a user and prints its id; `ls`
/// prints `"<id> <name>"` for every user.
pub fn run_user_command(core: &mut Core, command: UserCommands) -> (r: Result<Vec<String>, CliError>)
    ensures
        match command {
            UserCommands::Add(args) => if is_blank(args.name@) {
                r matches Err(CliError::Core(CoreError::EmptyUserName)) && final(core)@ == old(core)@
            } else {
                r matches Ok(lines) && (lines@.len() == 1 && exists|id: UserId|
                    lines@[0]@ == hyphenated(id.value) && #[trigger] upsert_user(
                        old(core)@.users,
                        UserView { id, name: args.name@ },
                    ) == final(core)@.users && final(core)@ == (StoreView {
                        users: final(core)@.users,
                        ..old(core)@
                    }))
            },
            UserCommands::Ls => r matches Ok(lines) && line_views(lines@) == old(core)@.users.map_values(
                |u: UserView| user_line(u),
            ) && final(core)@ == old(core)@,
        },
{
    match command {
        UserCommands::Add(args) => {
            let ghost name = args.name@;
            match core.create_user(args.name) {
                Ok(user) => {
                    let mut lines: Vec<String> = Vec::new();
                    let l = user.id.to_text();
                    push_line(&mut lines, l);
                    assert(lines@[0] == l);
                    assert(user@ == UserView { id: user.id, name });
                    assert(upsert_user(old(core)@.users, UserView { id: user.id, name }) == core@.users);
                    assert(lines@[0]@ == hyphenated(user.id.value));
                    Ok(lines)
                },
                Err(e) => Err(CliError::Core(e)),
            }
        },
        UserCommands::Ls => {
            let users = match core.list_users() {
                Ok(u) => u,
                Err(e) => {
                    return Err(CliError::Core(e));
                },
            };
            let mut lines: Vec<String> = Vec::new();
            let mut i: usize = 0;
            while i < users.len()
                invariant
                    i <= users.len(),
                    line_views(lines@) == user_views(users@).subrange(0, i as int).map_values(
                        |u: UserView| user_line(u),
                    ),
                decreases users.len() - i,
            {
                let mut l = users[i].id.to_text();
                append_text(&mut l, " ");
                append_text(&mut l, users[i].name.as_str());
                push_line(&mut lines, l);
                assert(user_views(users@).subrange(0, i + 1).map_values(|u: UserView| user_line(u))
                    =~= user_views(users@).subrange(0, i as int).map_values(
                    |u: UserView| user_line(u),
                ).push(user_line(users@[i as int]@)));
                i = i + 1;
            }
            assert(user_views(users@).subrange(0, users.len() as int) =~= user_views(users@));
            Ok(lines)
        },
    }
}

/// Runs a task-type command: `ls` prints the summary line of every type;
/// `set` merges the arguments onto the type with the key (if any), writes
/// it and prints its summary line.
pub fn run_type_command(core: &mut Core, command: TypeCommands) -> (r: Result<Vec<String>, CliError>)
    ensures
        match command {
            TypeCommands::Ls => r matches Ok(lines) && line_views(lines@) == old(core)@.types.map_values(
                |t: TaskTypeView| type_line(t),
            ) && final(core)@ == old(core)@,
            TypeCommands::SetType(args) => r matches Ok(lines) && line_views(lines@) == seq![
                type_line(merged_type(first_type(old(core)@.types, args.key@), args)),
            ] && final(core)@ == (StoreView {
                types: upsert_type(
                    old(core)@.types,
                    merged_type(first_type(old(core)@.types, args.key@), args),
                ),
                ..old(core)@
            }),
        },
{
    match command {
        TypeCommands::Ls => {
            let types = match core.list_task_types() {
                Ok(t) => t,
                Err(e) => {
                    return Err(CliError::Core(e));
                },
            };
            let mut lines: Vec<String> = Vec::new();
            let mut i: usize = 0;
            while i < types.len()
                invariant
                    i <= types.len(),
                    line_views(lines@) == types@.map_values(|t: TaskType| t@).subrange(
                        0,
                        i as int,
                    ).map_values(|t: TaskTypeView| type_line(t)),
                decreases types.len() - i,
            {
                let l = format_type_line(&types[i]);
                push_line(&mut lines, l);
                assert(types@.map_values(|t: TaskType| t@).subrange(0, i + 1).map_values(
                    |t: TaskTypeView| type_line(t),
                ) =~= types@.map_values(|t: TaskType| t@).subrange(0, i as int).map_values(
                    |t: TaskTypeView| type_line(t),
                ).push(type_line(types@[i as int]@)));
                i = i + 1;
            }
            assert(types@.map_values(|t: TaskType| t@).subrange(0, types.len() as int)
                =~= types@.map_values(|t: TaskType| t@));
            Ok(lines)
        },
        TypeCommands::SetType(args) => {
            let ghost a = args;
            let types = match core.list_task_types() {
                Ok(t) => t,
                Err(e) => {
                    return Err(CliError::Core(e));
                },
            };
            let existing = find_type(&types, args.key.as_str());
            let merged = merge_type(existing, args);
            let up = match core.upsert_task_type(merged) {
                Ok(t) => t,
                Err(e) => {
                    return Err(CliError::Core(e));
                },
            };
            let mut lines: Vec<String> = Vec::new();
            push_line(&mut lines, format_type_line(&up));
            assert(line_views(lines@) =~= seq![
                type_line(merged_type(first_type(old(core)@.types, a.key@), a)),
            ]);
            Ok(lines)
        },
    }
}

/// The outcome of a task command: lines to print, or a delete that waits
/// for the user's confirmation (`prompt`), after which
/// `finish_task_delete` runs it.
pub enum TaskOutput {
    Lines(Vec<String>),
    ConfirmDelete { prompt: String, id: TaskId, mode: DeleteMode },
}

/// The new task `task add` asks for: with `inherit` and a first parent
/// that is live, the assignee and dates the command leaves unset come from
/// that parent.
pub open spec fn add_request(v: StoreView, a: AddArgs) -> NewTask {
    let p = if a.inherit && a.parent@.len() > 0 {
        live_task(v, a.parent@[0])
    } else {
        None
    };
    NewTask {
        title: a.title,
        description: a.description,
        parent_ids: a.parent,
        type_key: a.type_key,
        start_date: match a.start {
            Some(d) => Some(d),
            None => match p {
                Some(t) => t.start_date,
                None => None,
            },
        },
        due_date: match a.due {
            Some(d) => Some(d),
            None => match p {
                Some(t) => t.due_date,
                None => None,
            },
        },
        assignee_id: match a.assignee {
            Some(u) => Some(u),
            None => match p {
                Some(t) => t.assignee_id,
                None => None,
            },
        },
    }
}

/// What `task add` returns, and the store it leaves (`v` before, `w` after).
pub open spec fn add_outcome(v: StoreView, a: AddArgs, r: Result<TaskOutput, CliError>, w: StoreView) -> bool {
    &&& !create_ok(v, add_request(v, a)) ==> (r matches Err(CliError::Core(e))
        && create_error(v, add_request(v, a), e)) && w == v
    &&& create_ok(v, add_request(v, a)) ==> (r matches Ok(TaskOutput::Lines(lines))
        && (lines@.len() == 1 && exists|t: TaskView|
        lines@[0]@ == hyphenated(t.id.value) && !id_in_use(v, t.id) && #[trigger] created(
            v,
            add_request(v, a),
            t.id,
            t.created_at,
        ) == w)) || (r matches Err(CliError::Core(CoreError::Store(_))) && w == v)
    &&& r matches Err(CliError::Core(CoreError::Store(_))) ==> exists|x: TaskId| #[trigger] id_in_use(v, x)
}

/// `task add`: creates the task (see `add_request`) and prints its id.
pub fn run_task_add(core: &mut Core, args: AddArgs) -> (r: Result<TaskOutput, CliError>)
    ensures
        add_outcome(old(core)@, args, r, final(core)@),
{
    let ghost a = args;
    let mut assignee_id = args.assignee;
    let mut start_date = args.start;
    let mut due_date = args.due;
    if args.inherit && args.parent.len() > 0 {
        match core.get_task(args.parent[0]) {
            Ok(Some(parent)) => {
                if assignee_id.is_none() {
                    assignee_id = parent.assignee_id;
                }
                if start_date.is_none() {
                    start_date = parent.start_date;
                }
                if due_date.is_none() {
                    due_date = parent.due_date;
                }
            },
            Ok(None) => {},
            Err(e) => {
                return Err(CliError::Core(e));
            },
        }
    }
    let new_task = NewTask {
        title: args.title,
        description: args.description,
        parent_ids: args.parent,
        type_key: args.type_key,
        start_date,
        due_date,
        assignee_id,
    };
    assert(new_task == add_request(old(core)@, a));
    match core.create_task(new_task) {
        Ok(task) => {
            let mut lines: Vec<String> = Vec::new();
            let l = task.id.to_text();
            push_line(&mut lines, l);
            assert(lines@[0] == l);
            assert(created(old(core)@, add_request(old(core)@, a), task@.id, task@.created_at)
                == core@);
            assert(lines@[0]@ == hyphenated(task@.id.value));
            assert(!id_in_use(old(core)@, task@.id));
            Ok(TaskOutput::Lines(lines))
        },
        Err(e) => Err(CliError::Core(e)),
    }
}

/// What `task ls` returns: the summary line of every live task that
/// passes the type filter, in store order.
pub open spec fn ls_outcome(v: StoreView, a: LsArgs, r: Result<TaskOutput, CliError>) -> bool {
    let filter = TreeFilter { type_key: a.type_key, status: None, assignee_id: None, include_deleted: false };
    r matches Ok(TaskOutput::Lines(lines)) && line_views(lines@) == task_lines(
        shown_all(v, listed(v.tasks, v.edges, filter)),
        v.users,
    )
}

/// `task ls`: the summary line of every live task of the given type (or
/// of every type), in store order.
pub fn run_task_ls(core: &Core, args: &LsArgs) -> (r: Result<TaskOutput, CliError>)
    ensures
        ls_outcome(core@, *args, r),
{
    let filter = TreeFilter {
        type_key: match &args.type_key {
            Some(k) => Some(k.clone()),
            None => None,
        },
        status: None,
        assignee_id: None,
        include_deleted: false,
    };
    let tasks = match core.get_tree(filter) {
        Ok(t) => t,
        Err(e) => {
            return Err(CliError::Core(e));
        },
    };
    let users = match core.list_users() {
        Ok(u) => u,
        Err(e) => {
            return Err(CliError::Core(e));
        },
    };
    Ok(TaskOutput::Lines(task_lines_of(&tasks, &users)))
}

/// The patch `task edit` asks for.
pub open spec fn edit_patch(a: EditArgs) -> TaskPatch {
    TaskPatch {
        title: match a.title {
            Some(t) => Field::Assign(t),
            None => Field::Keep,
        },
        description: match a.description {
            Some(d) => Field::Assign(d),
            None => if a.clear_description { Field::Clear } else { Field::Keep },
        },
        start_date: match a.start {
            Some(d) => Field::Assign(d),
            None => if a.clear_start { Field::Clear } else { Field::Keep },
        },
        due_date: match a.due {
            Some(d) => Field::Assign(d),
            None => if a.clear_due { Field::Clear } else { Field::Keep },
        },
        assignee_id: match a.assignee {
            Some(u) => Field::Assign(u),
            None => if a.clear_assignee { Field::Clear } else { Field::Keep },
        },
        type_key: match a.type_key {
            Some(k) => Field::Assign(k),
            None => Field::Keep,
        },
    }
}

/// What `task edit` returns, and the store it leaves (`v` before, `w` after).
pub open spec fn edit_outcome(v: StoreView, a: EditArgs, r: Result<TaskOutput, CliError>, w: StoreView) -> bool {
    &&& live_task(v, a.id) is None ==> (r matches Err(CliError::Core(CoreError::NotFound(x)))
        && x == a.id) && w == v
    &&& live_task(v, a.id) matches Some(t) ==> (!crate::facade::update_ok(
        v,
        t,
        edit_patch(a),
    ) ==> (r matches Err(CliError::Core(e)) && crate::facade::update_error(
        v,
        t,
        edit_patch(a),
        e,
    )) && w == v) && (crate::facade::update_ok(
        v,
        t,
        edit_patch(a),
    ) ==> (r matches Ok(TaskOutput::Lines(lines)) && (lines@.len() == 1 && exists|
        x: TaskView,
    |
        #![trigger crate::facade::patched(t, edit_patch(a), x.updated_at)]
        lines@[0]@ == task_line(x, w.users) && w
            == crate::facade::written(
            v,
            crate::facade::patched(t, edit_patch(a), x.updated_at),
        ) && (live_task(w, a.id) matches Some(y) && x == shown(w, y)))))
}

/// `task edit`: applies the patch (see `edit_patch`) and prints the
/// edited task's summary line.
pub fn run_task_edit(core: &mut Core, args: EditArgs) -> (r: Result<TaskOutput, CliError>)
    ensures
        edit_outcome(old(core)@, args, r, final(core)@),
{
    let ghost a = args;
    let patch = TaskPatch {
        title: field_from(args.title, false),
        description: field_from(args.description, args.clear_description),
        start_date: field_from(args.start, args.clear_start),
        due_date: field_from(args.due, args.clear_due),
        assignee_id: field_from(args.assignee, args.clear_assignee),
        type_key: field_from(args.type_key, false),
    };
    assert(patch == edit_patch(a));
    let updated = match core.update_task(args.id, patch) {
        Ok(u) => u,
        Err(e) => {
            return Err(CliError::Core(e));
        },
    };
    let users = match core.list_users() {
        Ok(u) => u,
        Err(e) => {
            return Err(CliError::Core(e));
        },
    };
    let lines = task_lines_of(&updated, &users);
    proof {
        if updated@.len() == 1 {
            let x = updated@[0]@;
            assert(views(updated@)[0] == x);
            assert(user_views(users@) == core@.users);
            assert(line_views(lines@).len() == lines@.len());
            assert(task_lines(views(updated@), user_views(users@)).len() == 1);
            assert(line_views(lines@)[0] == lines@[0]@);
            assert(lines@[0]@ == task_line(x, core@.users));
            if live_task(old(core)@, a.id) is Some && crate::facade::update_ok(
                old(core)@,
                live_task(old(core)@, a.id)->0,
                edit_patch(a),
            ) {
                assert(core@ == crate::facade::written(
                    old(core)@,
                    crate::facade::patched(live_task(old(core)@, a.id)->0, edit_patch(a), x.updated_at),
                ));
            }
        }
    }
    Ok(TaskOutput::Lines(lines))
}


/// The lines a delete prints: the id of each task it wrote.
pub open spec fn id_line_views(ids: Seq<TaskId>) -> Seq<Seq<char>> {
    ids.map_values(|x: TaskId| hyphenated(x.value))
}

/// Deletes the live task `id` in `mode` and prints the id of every task
/// the delete wrote, once each.
pub fn finish_task_delete(core: &mut Core, id: TaskId, mode: DeleteMode) -> (r: Result<Vec<String>, CliError>)
    ensures
        live_task(old(core)@, id) is None ==> (r matches Err(CliError::Core(CoreError::NotFound(x)))
            && x == id) && final(core)@ == old(core)@,
        live_task(old(core)@, id) is Some ==> (r matches Ok(lines) && exists|ids: Seq<TaskId>|
            #![trigger id_line_views(ids)]
            ids.no_duplicates() && ids.to_set() == delete_touched(old(core)@, id, mode)
                && line_views(lines@) == id_line_views(ids) && exists|now: crate::ids::Timestamp|
                #[trigger] deleted_state(old(core)@, id, mode, now) == final(core)@),
{
    let deleted = match core.delete_task(id, mode) {
        Ok(d) => d,
        Err(e) => {
            return Err(CliError::Core(e));
        },
    };
    let lines = id_lines(&deleted);
    proof {
        let ids = ids_of(views(deleted@));
        assert(views(deleted@).map_values(|t: TaskView| hyphenated(t.id.value)) =~= id_line_views(ids));
    }
    Ok(lines)
}

/// What `task delete` returns, and the store it leaves (`v` before, `w` after).
pub open spec fn delete_outcome(v: StoreView, a: DeleteArgs, r: Result<TaskOutput, CliError>, w: StoreView) -> bool {
    &&& live_task(v, a.id) is None ==> (r matches Err(CliError::Core(CoreError::NotFound(x)))
        && x == a.id) && w == v
    &&& live_task(v, a.id) matches Some(t) ==> (delete_mode_for(
        a,
        live_children(v, a.id).len() > 0,
    ) is None ==> (r matches Err(CliError::NeedsDeleteMode { title, children }) && (title@
        == t.title && views(children@) == shown_all(v, live_children(v, a.id))))
        && w == v) && (delete_mode_for(
        a,
        live_children(v, a.id).len() > 0,
    ) matches Some(m) ==> (!a.yes ==> (r matches Ok(TaskOutput::ConfirmDelete { prompt, id, mode })
        && (prompt@ == "Delete task "@ + crate::error::str_debug(t.title) + "? [y/N] "@ && id
        == a.id && mode == m)) && w == v) && (a.yes ==> (r matches Ok(
        TaskOutput::Lines(lines),
    ) && exists|ids: Seq<TaskId>|
        #![trigger id_line_views(ids)]
        ids.no_duplicates() && ids.to_set() == delete_touched(v, a.id, m)
            && line_views(lines@) == id_line_views(ids) && exists|now: crate::ids::Timestamp|
            #[trigger] deleted_state(v, a.id, m, now) == w)))
}

/// `task delete`: refuses a missing task, and a task with live children
/// when no mode was chosen; else, unless `--yes` was given, asks for
/// confirmation first (`Delete task "<title>"? [y/N] `), and otherwise
/// deletes at once (see `finish_task_delete`).
pub fn run_task_delete(core: &mut Core, args: &DeleteArgs) -> (r: Result<TaskOutput, CliError>)
    ensures
        delete_outcome(old(core)@, *args, r, final(core)@),
{
    let target = match core.get_task(args.id) {
        Ok(Some(t)) => t,
        Ok(None) => {
            return Err(CliError::Core(CoreError::NotFound(args.id)));
        },
        Err(e) => {
            return Err(CliError::Core(e));
        },
    };
    let children = match core.list_children(args.id) {
        Ok(c) => c,
        Err(e) => {
            return Err(CliError::Core(e));
        },
    };
    proof {
        assert(views(children@).len() == children@.len());
        assert(shown_all(core@, live_children(core@, args.id)).len() == live_children(core@, args.id).len());
    }
    let mode = match choose_delete_mode(args, children.len() > 0) {
        Some(m) => m,
        None => {
            return Err(CliError::NeedsDeleteMode { title: target.title, children });
        },
    };
    if !args.yes {
        let mut prompt = owned("Delete task ");
        let q = crate::error::debug_quote(target.title.as_str());
        append_text(&mut prompt, q.as_str());
        append_text(&mut prompt, "? [y/N] ");
        return Ok(TaskOutput::ConfirmDelete { prompt, id: args.id, mode });
    }
    match finish_task_delete(core, args.id, mode) {
        Ok(lines) => Ok(TaskOutput::Lines(lines)),
        Err(e) => Err(e),
    }
}

/// The summary line of one task, naming its assignee from `core`'s users.
fn one_line(core: &Core, t: &Task) -> (r: Result<Vec<String>, CliError>)
    ensures
        r matches Ok(lines) && line_views(lines@) == seq![task_line(t@, core@.users)],
{
    let users = match core.list_users() {
        Ok(u) => u,
        Err(e) => {
            return Err(CliError::Core(e));
        },
    };
    let mut lines: Vec<String> = Vec::new();
    push_line(&mut lines, format_task_line(t, &users));
    assert(line_views(lines@) =~= seq![task_line(t@, core@.users)]);
    Ok(lines)
}

/// What `task restore` returns, and the store it leaves (`v` before, `w` after).
pub open spec fn restore_outcome(v: StoreView, a: RestoreArgs, r: Result<TaskOutput, CliError>, w: StoreView) -> bool {
    &&& any_task(v, a.id) is None ==> (r matches Err(CliError::Core(CoreError::NotFound(x)))
        && x == a.id) && w == v
    &&& any_task(v, a.id) matches Some(t) ==> (r matches Ok(TaskOutput::Lines(lines))
        && exists|x: TaskView|
        #![trigger crate::facade::written(v, TaskView { deleted_at: None, updated_at: x.updated_at, ..t })]
        line_views(lines@) == seq![task_line(x, w.users)] && w
            == crate::facade::written(
            v,
            TaskView { deleted_at: None, updated_at: x.updated_at, ..t },
        ) && (live_task(w, a.id) matches Some(y) && x == shown(w, y)))
}

/// `task restore`: clears the task's tombstone and prints its summary line.
pub fn run_task_restore(core: &mut Core, args: &RestoreArgs) -> (r: Result<TaskOutput, CliError>)
    ensures
        restore_outcome(old(core)@, *args, r, final(core)@),
{
    let task = match core.restore_task(args.id) {
        Ok(t) => t,
        Err(e) => {
            return Err(CliError::Core(e));
        },
    };
    match one_line(core, &task) {
        Ok(lines) => {
            proof {
                let t = any_task(old(core)@, args.id)->0;
                assert(core@ == crate::facade::written(
                    old(core)@,
                    TaskView { deleted_at: None, updated_at: task@.updated_at, ..t },
                ));
            }
            Ok(TaskOutput::Lines(lines))
        },
        Err(e) => Err(e),
    }
}

/// What `task reopen` returns, and the store it leaves (`v` before, `w` after).
pub open spec fn reopen_outcome(v: StoreView, a: ReopenArgs, r: Result<TaskOutput, CliError>, w: StoreView) -> bool {
    &&& live_task(v, a.id) is None ==> (r matches Err(CliError::Core(CoreError::NotFound(x)))
        && x == a.id) && w == v
    &&& live_task(v, a.id) matches Some(t) ==> (r matches Ok(TaskOutput::Lines(lines))
        && exists|x: TaskView|
        #![trigger crate::facade::written(v, TaskView { status: TaskStatus::Incomplete, completed_at: None, updated_at: x.updated_at, ..t })]
        line_views(lines@) == seq![task_line(x, w.users)] && w
            == crate::facade::written(
            v,
            TaskView {
                status: TaskStatus::Incomplete,
                completed_at: None,
                updated_at: x.updated_at,
                ..t
            },
        ) && (live_task(w, a.id) matches Some(y) && x == shown(w, y)))
}

/// `task reopen`: marks the task incomplete and prints its summary line.
pub fn run_task_reopen(core: &mut Core, args: &ReopenArgs) -> (r: Result<TaskOutput, CliError>)
    ensures
        reopen_outcome(old(core)@, *args, r, final(core)@),
{
    let task = match core.reopen_task(args.id) {
        Ok(t) => t,
        Err(e) => {
            return Err(CliError::Core(e));
        },
    };
    match one_line(core, &task) {
        Ok(lines) => {
            proof {
                let t = live_task(old(core)@, args.id)->0;
                assert(core@ == crate::facade::written(
                    old(core)@,
                    TaskView {
                        status: TaskStatus::Incomplete,
                        completed_at: None,
                        updated_at: task@.updated_at,
                        ..t
                    },
                ));
            }
            Ok(TaskOutput::Lines(lines))
        },
        Err(e) => Err(e),
    }
}

/// What `task mv` returns, and the store it leaves (`v` before, `w` after).
pub open spec fn mv_outcome(v: StoreView, a: MvArgs, r: Result<TaskOutput, CliError>, w: StoreView) -> bool {
    &&& live_task(v, a.id) is None ==> (r matches Err(CliError::Core(CoreError::NotFound(x)))
        && x == a.id) && w == v
    &&& live_task(v, a.id) is Some ==> (crate::facade::first_missing(v, a.parents@) matches Some(p)
        ==> (r matches Err(CliError::Core(CoreError::NotFound(x))) && x == p) && w == v)
    &&& live_task(v, a.id) is Some && crate::facade::first_missing(v, a.parents@) is None
        ==> (crate::hierarchy::first_cycle(v.edges, a.id, a.parents@) matches Some(p)
        ==> (r matches Err(CliError::Core(CoreError::CircularHierarchy { task, attempted_parent })) && (task == a.id
        && attempted_parent == p)) && w == v)
    &&& live_task(v, a.id) matches Some(t) ==> (crate::facade::first_missing(v, a.parents@) is None
        && crate::hierarchy::first_cycle(v.edges, a.id, a.parents@) is None
        ==> (r matches Ok(TaskOutput::Lines(lines)) && exists|x: TaskView|
        #![trigger task_line(x, w.users)]
        line_views(lines@) == seq![task_line(x, w.users)] && w
            == crate::facade::written(
            StoreView {
                edges: crate::facade::reparented_edges(v.edges, a.id, a.parents@),
                ..v
            },
            TaskView { updated_at: x.updated_at, ..t },
        ) && (live_task(w, a.id) matches Some(y) && x == shown(w, y))))
    &&& crate::hierarchy::acyclic(v.edges) ==> crate::hierarchy::acyclic(w.edges)
}

/// `task mv`: replaces the task's parents and prints its summary line.
pub fn run_task_mv(core: &mut Core, args: &MvArgs) -> (r: Result<TaskOutput, CliError>)
    ensures
        mv_outcome(old(core)@, *args, r, final(core)@),
{
    let parents = crate::model::copy_ids(&args.parents);
    let ghost pv = parents@;
    let task = match core.set_parents(args.id, parents) {
        Ok(t) => t,
        Err(e) => {
            return Err(CliError::Core(e));
        },
    };
    match one_line(core, &task) {
        Ok(lines) => {
            proof {
                let t = live_task(old(core)@, args.id)->0;
                assert(pv == args.parents@);
                if crate::facade::first_missing(old(core)@, args.parents@) is None
                    && crate::hierarchy::first_cycle(old(core)@.edges, args.id, args.parents@) is None {
                    assert(core@ == crate::facade::written(
                        StoreView {
                            edges: crate::facade::reparented_edges(old(core)@.edges, args.id, args.parents@),
                            ..old(core)@
                        },
                        TaskView { updated_at: task@.updated_at, ..t },
                    ));
                    assert(line_views(lines@) == seq![task_line(task@, core@.users)]);
                }
            }
            Ok(TaskOutput::Lines(lines))
        },
        Err(e) => Err(e),
    }
}

/// What `task complete` returns, and the store it leaves (`v` before, `w` after).
pub open spec fn complete_outcome(v: StoreView, a: CompleteArgs, r: Result<TaskOutput, CliError>, w: StoreView) -> bool {
    &&& live_task(v, a.id) is None ==> (r matches Err(CliError::Core(CoreError::NotFound(x)))
        && x == a.id) && w == v
    &&& live_task(v, a.id) is Some && !a.cascade && open_descendants(v, a.id) != Set::<TaskId>::empty()
        ==> (r matches Err(CliError::Core(CoreError::IncompleteChildren { task, incomplete }))
        && (task == a.id && incomplete@.no_duplicates() && incomplete@.to_set() == open_descendants(v, a.id))) && w == v
    &&& live_task(v, a.id) is Some && (a.cascade || open_descendants(v, a.id) == Set::<TaskId>::empty())
        ==> (r matches Ok(TaskOutput::Lines(lines)) && exists|ids: Seq<TaskId>|
        #![trigger live_rows(w, ids)]
        ids.no_duplicates() && ids.to_set() == to_complete(v, a.id, a.cascade)
            && line_views(lines@) == task_lines(shown_all(w, live_rows(w, ids)), w.users)
            && exists|now: crate::ids::Timestamp|
            #[trigger] completed_state(v, to_complete(v, a.id, a.cascade), now) == w)
}

/// `task complete`: completes the task (with `--cascade`, its open live
/// subtree too) and prints the summary line of each task it completed.
pub fn run_task_complete(core: &mut Core, args: &CompleteArgs) -> (r: Result<TaskOutput, CliError>)
    ensures
        complete_outcome(old(core)@, *args, r, final(core)@),
{
    let done = match core.complete_task(args.id, args.cascade) {
        Ok(d) => d,
        Err(e) => {
            return Err(CliError::Core(e));
        },
    };
    let users = match core.list_users() {
        Ok(u) => u,
        Err(e) => {
            return Err(CliError::Core(e));
        },
    };
    let lines = task_lines_of(&done, &users);
    proof {
        let ids = ids_of(views(done@));
        assert(live_rows(core@, ids) == live_rows(core@, ids));
    }
    Ok(TaskOutput::Lines(lines))
}

/// What a `task` subcommand returns, and the store it leaves: that of the
/// subcommand it names.
pub open spec fn task_command_outcome(
    v: StoreView,
    c: TaskCommands,
    r: Result<TaskOutput, CliError>,
    w: StoreView,
) -> bool {
    match c {
        TaskCommands::Add(a) => add_outcome(v, a, r, w),
        TaskCommands::Ls(a) => ls_outcome(v, a, r) && w == v,
        TaskCommands::Edit(a) => edit_outcome(v, a, r, w),
        TaskCommands::Delete(a) => delete_outcome(v, a, r, w),
        TaskCommands::Restore(a) => restore_outcome(v, a, r, w),
        TaskCommands::Complete(a) => complete_outcome(v, a, r, w),
        TaskCommands::Reopen(a) => reopen_outcome(v, a, r, w),
        TaskCommands::Mv(a) => mv_outcome(v, a, r, w),
    }
}

/// Runs a `task` subcommand against `core`: the lines to print, or the
/// delete that waits for confirmation.
pub fn run_task_command(core: &mut Core, command: TaskCommands) -> (r: Result<TaskOutput, CliError>)
    ensures
        task_command_outcome(old(core)@, command, r, final(core)@),
{
    match command {
        TaskCommands::Add(args) => run_task_add(core, args),
        TaskCommands::Ls(args) => run_task_ls(core, &args),
        TaskCommands::Edit(args) => run_task_edit(core, args),
        TaskCommands::Delete(args) => run_task_delete(core, &args),
        TaskCommands::Restore(args) => run_task_restore(core, &args),
        TaskCommands::Complete(args) => run_task_complete(core, &args),
        TaskCommands::Reopen(args) => run_task_reopen(core, &args),
        TaskCommands::Mv(args) => run_task_mv(core, &args),
    }
}

} // verus!
