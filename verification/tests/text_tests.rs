use bala::cli::trim_text;
use bala::codec::{
    blob_value, corrupt, date_from_stored, date_to_stored, id_blob, status_from_text, status_to_text,
    timestamp_from_stored, timestamp_to_stored,
};
use bala::ids::{Date, Timestamp};
use bala::error::StoreError;
use bala::model::TaskStatus;
use bala::text::{count_text, decimal_text, is_blank_text, is_white_char, same_text, string_of_chars, uuid_text};

#[test]
fn uuid_text_is_hyphenated_lower_case_hex() {
    assert_eq!(uuid_text(0), "00000000-0000-0000-0000-000000000000");
    assert_eq!(uuid_text(1), "00000000-0000-0000-0000-000000000001");
    assert_eq!(
        uuid_text(0x0123_4567_89ab_cdef_fedc_ba98_7654_3210),
        "01234567-89ab-cdef-fedc-ba9876543210"
    );
    assert_eq!(uuid_text(u128::MAX), "ffffffff-ffff-ffff-ffff-ffffffffffff");
}

#[test]
fn decimal_and_count_texts() {
    assert_eq!(decimal_text(0), "0");
    assert_eq!(decimal_text(42), "42");
    assert_eq!(decimal_text(-7), "-7");
    assert_eq!(decimal_text(i64::MIN), "-9223372036854775808");
    assert_eq!(count_text(0), "0");
    assert_eq!(count_text(1234), "1234");
}

#[test]
fn blank_and_white_space() {
    assert!(is_blank_text(""));
    assert!(is_blank_text(" \t\n"));
    assert!(!is_blank_text("  a "));
    assert!(is_white_char('\u{3000}'));
    assert!(!is_white_char('x'));
}

#[test]
fn small_text_helpers() {
    assert_eq!(string_of_chars(&vec!['a', 'b', 'c']), "abc");
    assert!(same_text("task", "task"));
    assert!(!same_text("task", "Task"));
    assert_eq!(trim_text("  yes \n"), "yes");
    assert_eq!(trim_text(" \t "), "");
}

#[test]
fn status_texts_round_trip_and_reject_others() {
    assert_eq!(status_to_text(TaskStatus::Incomplete), "incomplete");
    assert_eq!(status_to_text(TaskStatus::Complete), "complete");
    assert_eq!(status_from_text("complete"), Ok(TaskStatus::Complete));
    assert_eq!(status_from_text("incomplete"), Ok(TaskStatus::Incomplete));
    assert_eq!(
        status_from_text("done"),
        Err(StoreError::Backend("stored data could not be decoded (task status): done".to_owned()))
    );
}

#[test]
fn corrupt_names_context_and_detail() {
    assert_eq!(
        corrupt("date", "bad"),
        StoreError::Backend("stored data could not be decoded (date): bad".to_owned())
    );
}

#[test]
fn ids_are_stored_as_big_endian_blobs_and_read_back() {
    let v: u128 = 0x0123_4567_89ab_cdef_fedc_ba98_7654_3210;
    let blob = id_blob(v);
    assert_eq!(blob.len(), 16);
    assert_eq!(blob[0], 0x01);
    assert_eq!(blob[15], 0x10);
    assert_eq!(blob_value("task id", &blob), Ok(v));
    assert_eq!(
        blob_value("task id", &[1, 2, 3]),
        Err(StoreError::Backend(
            "stored data could not be decoded (task id): blob is 3 bytes, expected 16".to_owned()
        ))
    );
}

#[test]
fn dates_are_stored_as_iso_text_and_read_back() {
    let d = Date::from_ymd(2026, 1, 5).unwrap();
    assert_eq!(date_to_stored(d), Ok("2026-01-05".to_owned()));
    assert_eq!(date_from_stored("2026-01-05"), Ok(d));
    assert!(matches!(date_from_stored("2026-13-05"), Err(StoreError::Backend(m)) if m.starts_with("stored data could not be decoded (date): ")));
    assert_eq!(
        date_to_stored(Date { days: i32::MAX }),
        Err(StoreError::Backend(format!(
            "stored data could not be decoded (date): day {} is out of range",
            i32::MAX
        )))
    );
}

#[test]
fn timestamps_are_stored_as_rfc3339_and_read_back() {
    let t = Timestamp { micros: 1_767_225_600_123_456 };
    let text = timestamp_to_stored(t).unwrap();
    assert_eq!(text, "2026-01-01T00:00:00.123456+00:00");
    assert_eq!(timestamp_from_stored(&text), Ok(t));
    assert!(matches!(timestamp_from_stored("yesterday"), Err(StoreError::Backend(m)) if m.starts_with("stored data could not be decoded (timestamp): ")));
}

#[test]
fn date_text_writes_iso_dates_with_signed_far_years() {
    let t = |y: i32, m: u32, d: u32| bala::error::date_text(Date::from_ymd(y, m, d).unwrap());
    assert_eq!(t(2026, 1, 5), "2026-01-05");
    assert_eq!(t(7, 3, 9), "0007-03-09");
    assert_eq!(t(-1, 1, 1), "-0001-01-01");
    assert_eq!(t(10000, 12, 31), "+10000-12-31");
    assert_eq!(bala::error::date_text(Date { days: i32::MAX }), "");
}
