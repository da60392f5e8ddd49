//! How stored rows spell what they hold: task statuses as text, ids as
//! 16-byte blobs, dates as `YYYY-MM-DD`, timestamps as RFC 3339 text, and
//! the error for a stored value that cannot be read back.

use vstd::prelude::*;

use crate::error::{date_display, has_date, iso_date_text, StoreError};
use crate::ids::{day_number, is_calendar_date};
use crate::ids::{Date, Timestamp};
use crate::model::TaskStatus;
use crate::text::{append_text, count_text, decimal, decimal_text, owned, same_text};

verus! {

/// The stored text of a status.
pub open spec fn status_text(s: TaskStatus) -> Seq<char> {
    match s {
        TaskStatus::Incomplete => "incomplete"@,
        TaskStatus::Complete => "complete"@,
    }
}

/// The status a stored text spells, if any.
pub open spec fn status_of_text(t: Seq<char>) -> Option<TaskStatus> {
    if t == "incomplete"@ {
        Some(TaskStatus::Incomplete)
    } else if t == "complete"@ {
        Some(TaskStatus::Complete)
    } else {
        None
    }
}

/// The message of a value that could not be decoded.
pub open spec fn corrupt_message(context: Seq<char>, detail: Seq<char>) -> Seq<char> {
    "stored data could not be decoded ("@ + context + "): "@ + detail
}

/// The store error for a stored value that cannot be decoded.
pub fn corrupt(context: &str, detail: &str) -> (e: StoreError)
    ensures
        e matches StoreError::Backend(m) && m@ == corrupt_message(context@, detail@),
{
    let mut m = owned("stored data could not be decoded (");
    append_text(&mut m, context);
    append_text(&mut m, "): ");
    append_text(&mut m, detail);
    StoreError::Backend(m)
}

/// The stored text of a status: `incomplete` or `complete`.
pub fn status_to_text(status: TaskStatus) -> (s: String)
    ensures
        s@ == status_text(status),
{
    match status {
        TaskStatus::Incomplete => owned("incomplete"),
        TaskStatus::Complete => owned("complete"),
    }
}

/// Reads a stored status back; any other text is an undecodable value.
pub fn status_from_text(text: &str) -> (r: Result<TaskStatus, StoreError>)
    ensures
        match status_of_text(text@) {
            Some(st) => r == Ok::<TaskStatus, StoreError>(st),
            None => r matches Err(StoreError::Backend(m)) && m@ == corrupt_message(
                "task status"@,
                text@,
            ),
        },
{
    if same_text(text, "incomplete") {
        Ok(TaskStatus::Incomplete)
    } else if same_text(text, "complete") {
        Ok(TaskStatus::Complete)
    } else {
        Err(corrupt("task status", text))
    }
}

/// Reading back the text a status is stored as gives the status back.
pub proof fn law_status_text_round_trip(s: TaskStatus)
    ensures
        status_of_text(status_text(s)) == Some(s),
{
    reveal_strlit("incomplete");
    reveal_strlit("complete");
    assert("incomplete"@.len() != "complete"@.len());
}

/// The 16 bytes of a 128-bit value, most significant first.
pub open spec fn be_bytes(v: u128) -> Seq<u8> {
    Seq::new(16, |i: int| ((v >> ((8 * (15 - i)) as u128)) & 0xffu128) as u8)
}

/// What `uuid::Uuid::from_slice(..).as_u128()` gives for 16 bytes.
pub uninterp spec fn uuid_of_bytes(bytes: Seq<u8>) -> u128;

/// What `NaiveDate::parse_from_str(text, "%Y-%m-%d")` then
/// `num_days_from_ce` gives, when the text parses.
pub uninterp spec fn chrono_date_of_text(text: Seq<char>) -> Option<i32>;

/// What `DateTime::from_timestamp_micros(m)` then `to_rfc3339` gives, when
/// chrono has such a time.
pub uninterp spec fn rfc3339_of_micros(m: i64) -> Option<Seq<char>>;

/// What `DateTime::parse_from_rfc3339(text)` then `timestamp_micros`
/// gives, when the text parses.
pub uninterp spec fn micros_of_rfc3339(text: Seq<char>) -> Option<i64>;

/// Calls `uuid::Uuid::from_u128` and `as_bytes`. The contract claims what
/// the uuid source shows: the bytes are the value's big-endian bytes.
#[verifier::external_body]
fn uuid_bytes(v: u128) -> (r: Vec<u8>)
    ensures
        r@ == be_bytes(v),
{
    uuid::Uuid::from_u128(v).as_bytes().to_vec()
}

/// Calls `uuid::Uuid::from_slice` and `as_u128`. The contract claims what
/// the uuid source shows: a slice of 16 bytes is read as a big-endian
/// value (so the bytes of a value read back to it), any other length is
/// refused. The value of other 16 bytes is only named.
#[verifier::external_body]
fn uuid_from_bytes(bytes: &[u8]) -> (r: Option<u128>)
    ensures
        r is Some <==> bytes@.len() == 16,
        r is Some ==> r == Some(uuid_of_bytes(bytes@)),
        forall|v: u128| bytes@ == #[trigger] be_bytes(v) ==> r == Some(v),
{
    match uuid::Uuid::from_slice(bytes) {
        Ok(u) => Some(u.as_u128()),
        Err(_) => None,
    }
}

/// Calls `chrono::NaiveDate::parse_from_str` with `%Y-%m-%d` and returns
/// the date's day count from the common era, or chrono's error message.
/// The contract names the result; the message is not stated.
#[verifier::external_body]
fn parse_date_text(text: &str) -> (r: Result<i32, String>)
    ensures
        match r {
            Ok(d) => chrono_date_of_text(text@) == Some(d),
            Err(_) => chrono_date_of_text(text@) is None,
        },
{
    match chrono::NaiveDate::parse_from_str(text, "%Y-%m-%d") {
        Ok(d) => Ok(chrono::Datelike::num_days_from_ce(&d)),
        Err(e) => Err(e.to_string()),
    }
}

/// Calls `chrono::DateTime::from_timestamp_micros` and `to_rfc3339`;
/// `None` when chrono has no time that far out. The contract names the
/// result.
#[verifier::external_body]
fn micros_to_rfc3339(m: i64) -> (r: Option<String>)
    ensures
        match r {
            Some(t) => rfc3339_of_micros(m) == Some(t@),
            None => rfc3339_of_micros(m) is None,
        },
{
    match chrono::DateTime::from_timestamp_micros(m) {
        Some(dt) => Some(dt.to_rfc3339()),
        None => None,
    }
}

/// Calls `chrono::DateTime::parse_from_rfc3339` and `timestamp_micros`,
/// or returns chrono's error message. The contract names the result; the
/// message is not stated.
#[verifier::external_body]
fn rfc3339_to_micros(text: &str) -> (r: Result<i64, String>)
    ensures
        match r {
            Ok(m) => micros_of_rfc3339(text@) == Some(m),
            Err(_) => micros_of_rfc3339(text@) is None,
        },
{
    match chrono::DateTime::parse_from_rfc3339(text) {
        Ok(dt) => Ok(dt.timestamp_micros()),
        Err(e) => Err(e.to_string()),
    }
}

/// The blob an id is stored as: its 16 bytes, most significant first.
pub fn id_blob(v: u128) -> (r: Vec<u8>)
    ensures
        r@ == be_bytes(v),
{
    uuid_bytes(v)
}

/// Reads an id back from its blob; a blob of another length than 16 is an
/// undecodable value, `context` naming what was read.
pub fn blob_value(context: &str, bytes: &[u8]) -> (r: Result<u128, StoreError>)
    ensures
        bytes@.len() == 16 ==> r == Ok::<u128, StoreError>(uuid_of_bytes(bytes@)),
        forall|v: u128| bytes@ == #[trigger] be_bytes(v) ==> r == Ok::<u128, StoreError>(v),
        bytes@.len() != 16 ==> (r matches Err(StoreError::Backend(m)) && m@ == corrupt_message(
            context@,
            "blob is "@ + decimal(bytes@.len() as int) + " bytes, expected 16"@,
        )),
{
    match uuid_from_bytes(bytes) {
        Some(v) => Ok(v),
        None => {
            let mut detail = owned("blob is ");
            let n = count_text(bytes.len());
            append_text(&mut detail, n.as_str());
            append_text(&mut detail, " bytes, expected 16");
            Err(corrupt(context, detail.as_str()))
        },
    }
}

/// The text a date is stored as (`YYYY-MM-DD`); a day count outside
/// chrono's calendar cannot be stored.
pub fn date_to_stored(d: Date) -> (r: Result<String, StoreError>)
    ensures
        match iso_date_text(d.days as int) {
            Some(t) => r matches Ok(s) && s@ == t,
            None => r matches Err(StoreError::Backend(m)) && m@ == corrupt_message(
                "date"@,
                "day "@ + decimal(d.days as int) + " is out of range"@,
            ),
        },
{
    let r = date_display(d.days);
    proof {
        if has_date(d.days as int) {
            let (y, m, dd) = choose|y: int, m: int, dd: int| #![trigger day_number(y, m, dd)] is_calendar_date(y, m, dd) && day_number(y, m, dd) == d.days;
            assert(day_number(y, m, dd) == d.days);
        }
    }
    match r {
        Some(t) => Ok(t),
        None => {
            let mut detail = owned("day ");
            let n = decimal_text(d.days as i64);
            append_text(&mut detail, n.as_str());
            append_text(&mut detail, " is out of range");
            Err(corrupt("date", detail.as_str()))
        },
    }
}

/// Reads a stored date back; text chrono does not read as `YYYY-MM-DD` is
/// an undecodable value (with chrono's message).
pub fn date_from_stored(text: &str) -> (r: Result<Date, StoreError>)
    ensures
        match chrono_date_of_text(text@) {
            Some(d) => r == Ok::<Date, StoreError>(Date { days: d }),
            None => r matches Err(StoreError::Backend(m)) && exists|detail: Seq<char>|
                m@ == corrupt_message("date"@, detail),
        },
{
    match parse_date_text(text) {
        Ok(d) => Ok(Date { days: d }),
        Err(e) => Err(corrupt("date", e.as_str())),
    }
}

/// The text a timestamp is stored as (RFC 3339); a time outside chrono's
/// range cannot be stored.
pub fn timestamp_to_stored(t: Timestamp) -> (r: Result<String, StoreError>)
    ensures
        match rfc3339_of_micros(t.micros) {
            Some(x) => r matches Ok(s) && s@ == x,
            None => r matches Err(StoreError::Backend(m)) && m@ == corrupt_message(
                "timestamp"@,
                decimal(t.micros as int) + " microseconds is out of range"@,
            ),
        },
{
    match micros_to_rfc3339(t.micros) {
        Some(x) => Ok(x),
        None => {
            let mut detail = decimal_text(t.micros);
            append_text(&mut detail, " microseconds is out of range");
            Err(corrupt("timestamp", detail.as_str()))
        },
    }
}

/// Reads a stored timestamp back; text that is not RFC 3339 is an
/// undecodable value (with chrono's message).
pub fn timestamp_from_stored(text: &str) -> (r: Result<Timestamp, StoreError>)
    ensures
        match micros_of_rfc3339(text@) {
            Some(m) => r == Ok::<Timestamp, StoreError>(Timestamp { micros: m }),
            None => r matches Err(StoreError::Backend(m)) && exists|detail: Seq<char>|
                m@ == corrupt_message("timestamp"@, detail),
        },
{
    match rfc3339_to_micros(text) {
        Ok(m) => Ok(Timestamp { micros: m }),
        Err(e) => Err(corrupt("timestamp", e.as_str())),
    }
}

} // verus!
