//! Identifiers, calendar dates and timestamps.
//!
//! `TaskId`/`UserId` hold the 128-bit value of a random (version 4) UUID; they
//! are distinct types so one can never be passed where the other is
//! expected. Dates are counted in days from the common era (the day count
//! chrono's `NaiveDate::num_days_from_ce` gives), so their order is integer
//! order; timestamps are microseconds since the Unix epoch.

use chrono::Datelike;
use vstd::prelude::*;

use crate::text::{append_text, hyphenated, owned, uuid_text};

verus! {

/// What `uuid::Uuid::parse_str` yields for a text, as the UUID's 128-bit value.
pub uninterp spec fn uuid_from_text(text: Seq<char>) -> Option<u128>;

/// A leap year of the proleptic Gregorian calendar (year 0 is 1 BCE).
pub open spec fn is_leap_year(y: int) -> bool {
    (y % 4 == 0 && y % 100 != 0) || y % 400 == 0
}

/// The number of days of month `m` (1 to 12) of year `y`.
pub open spec fn month_length(y: int, m: int) -> int {
    if m == 2 {
        if is_leap_year(y) {
            29
        } else {
            28
        }
    } else if m == 4 || m == 6 || m == 9 || m == 11 {
        30
    } else {
        31
    }
}

/// The days of year `y` before the first of month `m`.
pub open spec fn days_before_month(y: int, m: int) -> int
    decreases m,
{
    if m <= 1 {
        0
    } else {
        days_before_month(y, m - 1) + month_length(y, m - 1)
    }
}

/// The dates chrono's `NaiveDate` holds: a month, a day of it, and a year
/// from -262143 to 262142.
pub open spec fn is_calendar_date(y: int, m: int, d: int) -> bool {
    &&& -262143 <= y <= 262142
    &&& 1 <= m <= 12
    &&& 1 <= d <= month_length(y, m)
}

/// The day count of a date in the proleptic Gregorian calendar, January 1
/// of year 1 being day 1.
pub open spec fn day_number(y: int, m: int, d: int) -> int {
    let p = y - 1;
    365 * p + p / 4 - p / 100 + p / 400 + days_before_month(y, m) + d
}

/// Calls `uuid::Uuid::new_v4` and returns the UUID's 128-bit value. The
/// contract claims only what the uuid source sets on every outcome: the
/// version nibble is 4. The other bits are random and nothing is claimed of
/// them (in particular, not that two calls differ).
#[verifier::external_body]
fn random_uuid_value() -> (v: u128)
    ensures
        (v >> 76u128) & 0xfu128 == 4u128,
{
    uuid::Uuid::new_v4().as_u128()
}

/// Calls `uuid::Uuid::parse_str` and returns the parsed UUID's 128-bit
/// value. The contract names the result `uuid_from_text` and claims, as the
/// uuid documentation states, that the hyphenated lower-case rendering of a
/// value parses back to that value.
#[verifier::external_body]
fn parse_uuid_value(text: &str) -> (r: Option<u128>)
    ensures
        r == uuid_from_text(text@),
        forall|v: u128| text@ == #[trigger] hyphenated(v) ==> r == Some(v),
{
    uuid::Uuid::parse_str(text).ok().map(|u| u.as_u128())
}

/// Calls `chrono::NaiveDate::from_ymd_opt` and returns the date's day count
/// from the common era (`Datelike::num_days_from_ce`). The contract claims
/// what chrono documents and its source shows: a date exists for a month
/// 1 to 12, a day of that month and a year within `NaiveDate`'s range, and
/// its day count is the proleptic Gregorian one with January 1 of year 1
/// as day 1.
#[verifier::external_body]
fn days_from_ymd(year: i32, month: u32, day: u32) -> (r: Option<i32>)
    ensures
        r == (if is_calendar_date(year as int, month as int, day as int) {
            Some(day_number(year as int, month as int, day as int) as i32)
        } else {
            None
        }),
{
    chrono::NaiveDate::from_ymd_opt(year, month, day).map(|d| d.num_days_from_ce())
}

/// Calls `chrono::Utc::now` and returns it as microseconds since the Unix
/// epoch. It reads the system clock, so nothing is claimed of the value.
#[verifier::external_body]
fn clock_micros() -> (t: i64) {
    chrono::Utc::now().timestamp_micros()
}

/// Identifies a task.
#[derive(Clone, Copy, PartialEq, Eq, Structural, Debug, Hash)]
pub struct TaskId {
    pub value: u128,
}

/// Identifies a user (e.g. a task's assignee).
#[derive(Clone, Copy, PartialEq, Eq, Structural, Debug, Hash)]
pub struct UserId {
    pub value: u128,
}

/// The text `TaskId(<hyphenated uuid>)` that debug-printing a task id shows.
pub open spec fn task_id_debug(id: TaskId) -> Seq<char> {
    "TaskId("@ + hyphenated(id.value) + ")"@
}

/// The text `UserId(<hyphenated uuid>)` that debug-printing a user id shows.
pub open spec fn user_id_debug(id: UserId) -> Seq<char> {
    "UserId("@ + hyphenated(id.value) + ")"@
}

impl TaskId {
    /// A fresh random id.
    pub fn new() -> (id: TaskId)
        ensures
            (id.value >> 76u128) & 0xfu128 == 4u128,
    {
        TaskId { value: random_uuid_value() }
    }

    pub fn from_u128(value: u128) -> (id: TaskId)
        ensures
            id.value == value,
    {
        TaskId { value }
    }

    pub fn as_u128(&self) -> (v: u128)
        ensures
            v == self.value,
    {
        self.value
    }

    /// The hyphenated UUID text of this id.
    pub fn to_text(&self) -> (s: String)
        ensures
            s@ == hyphenated(self.value),
    {
        uuid_text(self.value)
    }

    /// Parses a UUID text (any form the uuid crate accepts).
    pub fn parse_text(text: &str) -> (r: Option<TaskId>)
        ensures
            r == (match uuid_from_text(text@) {
                Some(v) => Some(TaskId { value: v }),
                None => None,
            }),
            forall|v: u128| text@ == #[trigger] hyphenated(v) ==> r == Some(TaskId { value: v }),
    {
        match parse_uuid_value(text) {
            Some(v) => Some(TaskId { value: v }),
            None => None,
        }
    }

    /// `TaskId(<hyphenated uuid>)`, as error messages show an id.
    pub fn debug_text(&self) -> (s: String)
        ensures
            s@ == task_id_debug(*self),
    {
        let mut s = owned("TaskId(");
        let t = self.to_text();
        append_text(&mut s, t.as_str());
        append_text(&mut s, ")");
        s
    }
}

impl UserId {
    /// A fresh random id.
    pub fn new() -> (id: UserId)
        ensures
            (id.value >> 76u128) & 0xfu128 == 4u128,
    {
        UserId { value: random_uuid_value() }
    }

    pub fn from_u128(value: u128) -> (id: UserId)
        ensures
            id.value == value,
    {
        UserId { value }
    }

    pub fn as_u128(&self) -> (v: u128)
        ensures
            v == self.value,
    {
        self.value
    }

    /// The hyphenated UUID text of this id.
    pub fn to_text(&self) -> (s: String)
        ensures
            s@ == hyphenated(self.value),
    {
        uuid_text(self.value)
    }

    /// Parses a UUID text (any form the uuid crate accepts).
    pub fn parse_text(text: &str) -> (r: Option<UserId>)
        ensures
            r == (match uuid_from_text(text@) {
                Some(v) => Some(UserId { value: v }),
                None => None,
            }),
    {
        match parse_uuid_value(text) {
            Some(v) => Some(UserId { value: v }),
            None => None,
        }
    }

    /// `UserId(<hyphenated uuid>)`, as error messages show an id.
    pub fn debug_text(&self) -> (s: String)
        ensures
            s@ == user_id_debug(*self),
    {
        let mut s = owned("UserId(");
        let t = self.to_text();
        append_text(&mut s, t.as_str());
        append_text(&mut s, ")");
        s
    }
}

/// A calendar date, as its day count from the common era.
#[derive(Clone, Copy, PartialEq, Eq, Structural, Debug, Hash, PartialOrd, Ord)]
pub struct Date {
    pub days: i32,
}

impl Date {
    /// The date with the given year, month and day, or `None` when there is
    /// no such date.
    pub fn from_ymd(year: i32, month: u32, day: u32) -> (r: Option<Date>)
        ensures
            r == (if is_calendar_date(year as int, month as int, day as int) {
                Some(Date { days: day_number(year as int, month as int, day as int) as i32 })
            } else {
                None
            }),
    {
        match days_from_ymd(year, month, day) {
            Some(d) => Some(Date { days: d }),
            None => None,
        }
    }
}

/// A point in time, in microseconds since the Unix epoch (UTC).
#[derive(Clone, Copy, PartialEq, Eq, Structural, Debug, Hash, PartialOrd, Ord)]
pub struct Timestamp {
    pub micros: i64,
}

impl Timestamp {
    /// The current time from the system clock.
    pub fn now() -> (t: Timestamp) {
        Timestamp { micros: clock_micros() }
    }
}

} // verus!
