//! Error types and the messages they render to.

use vstd::prelude::*;

use crate::ids::{day_number, is_calendar_date, task_id_debug, user_id_debug, Date, TaskId, UserId};
use crate::text::{append_text, decimal_digits, owned};

verus! {

/// What `format!("{:?}", s)` renders for a `&str` (quoted, escaped).
pub uninterp spec fn str_debug(s: Seq<char>) -> Seq<char>;

/// `n` in decimal, with zeros in front to at least four digits.
pub open spec fn four_digits(n: nat) -> Seq<char> {
    let d = decimal_digits(n);
    if d.len() >= 4 {
        d
    } else {
        Seq::new((4 - d.len()) as nat, |i: int| '0') + d
    }
}

/// `n` (0 to 99) as two decimal digits.
pub open spec fn two_digits(n: int) -> Seq<char> {
    seq![(('0' as int) + n / 10) as char, (('0' as int) + n % 10) as char]
}

/// How chrono writes a year: four digits from 0 to 9999, else a sign and
/// at least four digits.
pub open spec fn year_text(y: int) -> Seq<char> {
    if 0 <= y <= 9999 {
        four_digits(y as nat)
    } else if y < 0 {
        seq!['-'] + four_digits((-y) as nat)
    } else {
        seq!['+'] + four_digits(y as nat)
    }
}

/// A date as `YYYY-MM-DD` (chrono's `Display` for `NaiveDate`).
pub open spec fn ymd_text(y: int, m: int, d: int) -> Seq<char> {
    year_text(y) + "-"@ + two_digits(m) + "-"@ + two_digits(d)
}

/// Some date chrono holds has this day count.
pub open spec fn has_date(days: int) -> bool {
    exists|y: int, m: int, d: int| #![trigger day_number(y, m, d)] is_calendar_date(y, m, d) && day_number(y, m, d) == days
}

/// The `YYYY-MM-DD` text of the date with this day count, if chrono holds
/// one.
pub open spec fn iso_date_text(days: int) -> Option<Seq<char>> {
    if has_date(days) {
        let (y, m, d) = choose|y: int, m: int, d: int| #![trigger day_number(y, m, d)] is_calendar_date(y, m, d) && day_number(y, m, d) == days;
        Some(ymd_text(y, m, d))
    } else {
        None
    }
}

/// The text a date is shown as: its `YYYY-MM-DD`, or empty text for a day
/// count outside chrono's calendar.
pub open spec fn date_shown(days: i32) -> Seq<char> {
    match iso_date_text(days as int) {
        Some(t) => t,
        None => ""@,
    }
}

/// Renders `s` with `str`'s `Debug` (`format!("{:?}")`). The contract only
/// names the result.
#[verifier::external_body]
pub(crate) fn debug_quote(s: &str) -> (r: String)
    ensures
        r@ == str_debug(s@),
{
    format!("{:?}", s)
}

/// Calls `chrono::NaiveDate::from_num_days_from_ce_opt` and renders the
/// date with its `Display`. The contract claims what chrono documents and
/// its source shows: there is a date exactly when some date chrono holds
/// has that day count (day counts run as in `days_from_ymd`), and it is
/// written `YYYY-MM-DD`, the year with four digits from 0 to 9999 and
/// otherwise with a sign and at least four digits.
#[verifier::external_body]
pub(crate) fn date_display(days: i32) -> (r: Option<String>)
    ensures
        r is Some <==> has_date(days as int),
        r matches Some(t) ==> forall|y: int, m: int, d: int|
            #![trigger day_number(y, m, d)]
            is_calendar_date(y, m, d) && day_number(y, m, d) == days ==> t@ == ymd_text(y, m, d),
{
    match chrono::NaiveDate::from_num_days_from_ce_opt(days) {
        Some(d) => Some(d.to_string()),
        None => None,
    }
}

/// The date's `YYYY-MM-DD` text; empty for a day count outside chrono's
/// calendar (see `date_shown`).
pub fn date_text(d: Date) -> (s: String)
    ensures
        s@ == date_shown(d.days),
{
    let r = date_display(d.days);
    proof {
        if has_date(d.days as int) {
            let (y, m, dd) = choose|y: int, m: int, dd: int| #![trigger day_number(y, m, dd)] is_calendar_date(y, m, dd) && day_number(y, m, dd) == d.days;
            assert(day_number(y, m, dd) == d.days);
        }
    }
    match r {
        Some(t) => t,
        None => {
            proof {
                reveal_strlit("");
            }
            String::new()
        },
    }
}

/// Errors from the storage layer.
#[derive(Clone, Debug, PartialEq)]
pub enum StoreError {
    /// A backend failure, with its message.
    Backend(String),
}

pub open spec fn store_error_message(e: StoreError) -> Seq<char> {
    match e {
        StoreError::Backend(m) => "store backend error: "@ + m@,
    }
}

impl StoreError {
    /// `store backend error: <message>`.
    pub fn message(&self) -> (s: String)
        ensures
            s@ == store_error_message(*self),
    {
        match self {
            StoreError::Backend(m) => {
                let mut s = owned("store backend error: ");
                append_text(&mut s, m.as_str());
                s
            },
        }
    }
}

/// Errors the `Core` facade returns.
#[derive(Clone, Debug, PartialEq)]
pub enum CoreError {
    NotFound(TaskId),
    EmptyTitle,
    InvalidDateRange { start: Date, due: Date },
    UnknownTaskType(String),
    EmptyUserName,
    UnknownUser(UserId),
    Store(StoreError),
    IncompleteChildren { task: TaskId, incomplete: Vec<TaskId> },
    CircularHierarchy { task: TaskId, attempted_parent: TaskId },
    NotUnderParent { task: TaskId, parent: Option<TaskId> },
}

/// The items of a debug-printed id list, separated by `", "`.
pub open spec fn ids_debug_items(ids: Seq<TaskId>) -> Seq<char>
    decreases ids.len(),
{
    if ids.len() == 0 {
        seq![]
    } else if ids.len() == 1 {
        task_id_debug(ids[0])
    } else {
        ids_debug_items(ids.drop_last()) + ", "@ + task_id_debug(ids.last())
    }
}

/// A debug-printed list of ids: `[TaskId(..), TaskId(..)]`.
pub open spec fn ids_debug(ids: Seq<TaskId>) -> Seq<char> {
    "["@ + ids_debug_items(ids) + "]"@
}

/// How an error names a sibling list: the parent id, or "the top level".
pub open spec fn parent_debug(p: Option<TaskId>) -> Seq<char> {
    match p {
        Some(id) => task_id_debug(id),
        None => "the top level"@,
    }
}

pub open spec fn core_error_message(e: CoreError) -> Seq<char> {
    match e {
        CoreError::NotFound(id) => "task "@ + task_id_debug(id) + " not found"@,
        CoreError::EmptyTitle => "title must not be empty"@,
        CoreError::InvalidDateRange { start, due } => "due date "@ + date_shown(due.days)
            + " is before start date "@ + date_shown(start.days),
        CoreError::UnknownTaskType(k) => "unknown task type "@ + str_debug(k@),
        CoreError::EmptyUserName => "user name must not be empty"@,
        CoreError::UnknownUser(id) => "unknown user "@ + user_id_debug(id),
        CoreError::Store(s) => store_error_message(s),
        CoreError::IncompleteChildren { task, incomplete } => task_id_debug(task)
            + " has incomplete children: "@ + ids_debug(incomplete@)
            + "; pass cascade=true or complete them first"@,
        CoreError::CircularHierarchy { task, attempted_parent } => "moving "@ + task_id_debug(task)
            + " under "@ + task_id_debug(attempted_parent) + " would make it its own ancestor"@,
        CoreError::NotUnderParent { task, parent } => task_id_debug(task) + " is not a child of "@
            + parent_debug(parent),
    }
}

/// `[TaskId(..), ...]` for a list of ids.
pub fn ids_debug_text(ids: &Vec<TaskId>) -> (s: String)
    ensures
        s@ == ids_debug(ids@),
{
    let mut s = owned("[");
    let mut i: usize = 0;
    while i < ids.len()
        invariant
            i <= ids.len(),
            s@ == "["@ + ids_debug_items(ids@.subrange(0, i as int)),
        decreases ids.len() - i,
    {
        let ghost before = s@;
        let d = ids[i].debug_text();
        if i > 0 {
            append_text(&mut s, ", ");
        }
        append_text(&mut s, d.as_str());
        let ghost sub = ids@.subrange(0, i + 1);
        assert(sub.drop_last() == ids@.subrange(0, i as int));
        assert(sub.last() == ids@[i as int]);
        if i == 0 {
            assert(ids_debug_items(ids@.subrange(0, 0)) == Seq::<char>::empty());
            assert(s@ == "["@ + ids_debug_items(sub));
        } else {
            assert(s@ =~= "["@ + (ids_debug_items(ids@.subrange(0, i as int)) + ", "@
                + task_id_debug(ids@[i as int])));
        }
        i = i + 1;
    }
    assert(ids@.subrange(0, ids.len() as int) == ids@);
    append_text(&mut s, "]");
    s
}

impl CoreError {
    /// The error's message (what `Display` renders).
    pub fn message(&self) -> (s: String)
        ensures
            s@ == core_error_message(*self),
    {
        match self {
            CoreError::NotFound(id) => {
                let mut s = owned("task ");
                let d = id.debug_text();
                append_text(&mut s, d.as_str());
                append_text(&mut s, " not found");
                s
            },
            CoreError::EmptyTitle => owned("title must not be empty"),
            CoreError::InvalidDateRange { start, due } => {
                let mut s = owned("due date ");
                let d = date_text(*due);
                append_text(&mut s, d.as_str());
                append_text(&mut s, " is before start date ");
                let st = date_text(*start);
                append_text(&mut s, st.as_str());
                s
            },
            CoreError::UnknownTaskType(k) => {
                let mut s = owned("unknown task type ");
                let q = debug_quote(k.as_str());
                append_text(&mut s, q.as_str());
                s
            },
            CoreError::EmptyUserName => owned("user name must not be empty"),
            CoreError::UnknownUser(id) => {
                let mut s = owned("unknown user ");
                let d = id.debug_text();
                append_text(&mut s, d.as_str());
                s
            },
            CoreError::Store(e) => e.message(),
            CoreError::IncompleteChildren { task, incomplete } => {
                let mut s = task.debug_text();
                append_text(&mut s, " has incomplete children: ");
                let l = ids_debug_text(incomplete);
                append_text(&mut s, l.as_str());
                append_text(&mut s, "; pass cascade=true or complete them first");
                s
            },
            CoreError::CircularHierarchy { task, attempted_parent } => {
                let mut s = owned("moving ");
                let a = task.debug_text();
                append_text(&mut s, a.as_str());
                append_text(&mut s, " under ");
                let b = attempted_parent.debug_text();
                append_text(&mut s, b.as_str());
                append_text(&mut s, " would make it its own ancestor");
                s
            },
            CoreError::NotUnderParent { task, parent } => {
                let mut s = task.debug_text();
                append_text(&mut s, " is not a child of ");
                match parent {
                    Some(p) => {
                        let d = p.debug_text();
                        append_text(&mut s, d.as_str());
                    },
                    None => append_text(&mut s, "the top level"),
                }
                s
            },
        }
    }
}

impl From<StoreError> for CoreError {
    fn from(e: StoreError) -> (r: CoreError) {
        CoreError::Store(e)
    }
}

impl vstd::std_specs::convert::FromSpecImpl<StoreError> for CoreError {
    open spec fn obeys_from_spec() -> bool {
        true
    }

    open spec fn from_spec(e: StoreError) -> CoreError {
        CoreError::Store(e)
    }
}

} // verus!
