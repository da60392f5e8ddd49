use bala::error::StoreError;
use bala::ids::{Date, TaskId, Timestamp, UserId};
use bala::model::{
    DeleteMode, Field, NewTask, Parents, Progress, Task, TaskPatch, TaskStatus, TaskType,
    SiblingOrder, TreeFilter, User,
};

#[test]
fn task_status_variants_are_distinct_and_comparable() {
    assert_eq!(TaskStatus::Incomplete, TaskStatus::Incomplete);
    assert_ne!(TaskStatus::Incomplete, TaskStatus::Complete);
}

#[test]
fn task_type_is_constructible_and_comparable() {
    let a = TaskType {
        key: "initiative".to_owned(),
        label: "Initiative".to_owned(),
        color: Some("#ff0000".to_owned()),
        sort_order: 0,
    };
    let b = a.clone();
    assert_eq!(a, b);
}

#[test]
fn field_variants_are_distinct_and_comparable() {
    let keep: Field<String> = Field::Keep;
    let set_x: Field<String> = Field::Assign("x".to_owned());
    let set_x_again: Field<String> = Field::Assign("x".to_owned());
    let clear: Field<String> = Field::Clear;

    assert_ne!(keep, set_x);
    assert_ne!(set_x, clear);
    assert_ne!(keep, clear);
    assert_eq!(set_x, set_x_again);
}

#[test]
fn delete_mode_variants_are_distinct_and_comparable() {
    assert_eq!(DeleteMode::Subtree, DeleteMode::Subtree);
    assert_eq!(DeleteMode::PromoteChildren, DeleteMode::PromoteChildren);
    assert_ne!(DeleteMode::Subtree, DeleteMode::PromoteChildren);
}

#[test]
fn backend_display_includes_message() {
    let err = StoreError::Backend("disk full".to_owned());
    assert_eq!(err.message(), "store backend error: disk full");
}

#[test]
fn task_id_new_generates_distinct_ids() {
    assert_ne!(TaskId::new(), TaskId::new());
}

#[test]
fn task_id_from_str_should_reject_invalid_uuid() {
    let result = TaskId::parse_text("not-a-uuid");
    assert!(result.is_none());
}

#[test]
fn task_id_text_round_trips() {
    let id = TaskId::new();
    assert_eq!(TaskId::parse_text(&id.to_text()), Some(id));
    let user = UserId::new();
    assert_eq!(UserId::parse_text(&user.to_text()), Some(user));
}

#[test]
fn task_id_text_is_hyphenated_lower_case() {
    let id = TaskId::from_u128(0x0123_4567_89ab_4cde_8f01_2345_6789_abcd);
    assert_eq!(id.to_text(), "01234567-89ab-4cde-8f01-23456789abcd");
    assert_eq!(id.debug_text(), "TaskId(01234567-89ab-4cde-8f01-23456789abcd)");
}

#[test]
fn task_is_constructible_with_expected_fields() {
    let now = Timestamp::now();
    let task = Task {
        id: TaskId::new(),
        title: "Write tests".to_owned(),
        description: None,
        parent_ids: Vec::new(),
        type_key: "task".to_owned(),
        status: TaskStatus::Incomplete,
        progress: Progress { complete: 0, total: 1 },
        start_date: None,
        due_date: None,
        assignee_id: None,
        created_at: now,
        updated_at: now,
        deleted_at: None,
        completed_at: None,
    };

    assert_eq!(task.title, "Write tests");
    assert_eq!(task.status, TaskStatus::Incomplete);
    assert!(task.parent_ids.is_empty());
    assert_eq!(task.progress.complete, 0);
}

#[test]
fn task_clone_and_eq_agree() {
    let now = Timestamp::now();
    let task = Task {
        id: TaskId::new(),
        title: "Task".to_owned(),
        description: Some("desc".to_owned()),
        parent_ids: vec![TaskId::new()],
        type_key: "task".to_owned(),
        status: TaskStatus::Complete,
        progress: Progress { complete: 1, total: 1 },
        start_date: None,
        due_date: None,
        assignee_id: None,
        created_at: now,
        updated_at: now,
        deleted_at: None,
        completed_at: None,
    };
    let cloned = task.clone();
    assert_eq!(task, cloned);
    assert_eq!(task.duplicate(), task);
}

#[test]
fn new_task_defaults_type_key_to_none() {
    let new_task = NewTask {
        title: "Title".to_owned(),
        description: None,
        parent_ids: Vec::new(),
        type_key: None,
        start_date: None,
        due_date: None,
        assignee_id: None,
    };
    assert_eq!(new_task.type_key, None);
}

#[test]
fn tree_filter_default_has_no_restrictions() {
    let filter = TreeFilter::default();
    assert_eq!(filter.type_key, None);
    assert_eq!(filter.status, None);
    assert_eq!(filter.assignee_id, None);
    assert!(!filter.include_deleted);
}

#[test]
fn user_is_constructible_with_expected_fields() {
    let user = User {
        id: UserId::new(),
        name: "Ada Lovelace".to_owned(),
    };

    assert_eq!(user.name, "Ada Lovelace");
}

#[test]
fn user_clone_and_eq_agree() {
    let user = User {
        id: UserId::new(),
        name: "Grace Hopper".to_owned(),
    };
    let cloned = user.clone();
    assert_eq!(user, cloned);
}

#[test]
fn task_patch_default_has_every_field_keep() {
    let patch = TaskPatch::default();
    assert_eq!(patch.title, Field::Keep);
    assert_eq!(patch.description, Field::Keep);
    assert_eq!(patch.start_date, Field::Keep);
    assert_eq!(patch.due_date, Field::Keep);
    assert_eq!(patch.assignee_id, Field::Keep);
    assert_eq!(patch.type_key, Field::Keep);
}

#[test]
fn field_clone_and_eq_agree() {
    let string_field: Field<String> = Field::Assign("hello".to_owned());
    let cloned_string_field = string_field.clone();
    assert_eq!(string_field, cloned_string_field);

    let date_field: Field<Date> = Field::Assign(Date::from_ymd(2026, 9, 10).expect("valid date"));
    let cloned_date_field = date_field.clone();
    assert_eq!(date_field, cloned_date_field);
}

#[test]
fn date_from_ymd_rejects_impossible_dates_and_orders_by_day() {
    assert!(Date::from_ymd(2026, 2, 30).is_none());
    let a = Date::from_ymd(2026, 1, 31).expect("valid date");
    let b = Date::from_ymd(2026, 2, 1).expect("valid date");
    assert_eq!(b.days, a.days + 1);
    assert!(a < b);
}

#[test]
fn parents_from_ids_names_top_level_for_an_empty_list() {
    assert_eq!(Parents::from_ids(Vec::new()), Parents::TopLevel);
    let id = TaskId::new();
    let p = Parents::from_ids(vec![id]);
    assert_eq!(p, Parents::Under(vec![id]));
    assert_eq!(p.ids(), vec![id]);
    assert!(Parents::TopLevel.ids().is_empty());
}

#[test]
fn task_id_and_user_id_do_not_convert_into_each_other() {
    // TaskId and UserId each hold a UUID's value; there is no conversion
    // between the two types, only through the value.
    let id = uuid::Uuid::new_v4();
    let task_id = TaskId::from_u128(id.as_u128());
    let user_id = UserId::from_u128(id.as_u128());
    assert_eq!(task_id.as_u128(), user_id.as_u128());
}

#[test]
fn task_id_round_trips_through_uuid() {
    let uuid = uuid::Uuid::new_v4();
    let task_id = TaskId::from_u128(uuid.as_u128());
    assert_eq!(uuid::Uuid::from_u128(task_id.as_u128()), uuid);
}

#[test]
fn task_id_is_debug_clone_copy_eq() {
    let a = TaskId::new();
    let b = a;
    assert_eq!(a, b);
    assert!(!format!("{a:?}").is_empty());
}

#[test]
fn task_id_display_should_render_hyphenated_uuid() {
    let uuid = uuid::Uuid::new_v4();
    let task_id = TaskId::from_u128(uuid.as_u128());
    assert_eq!(task_id.to_text(), uuid.to_string());
}

#[test]
fn task_id_from_str_should_round_trip_display_output() {
    let task_id = TaskId::new();
    let rendered = task_id.to_text();
    let parsed = TaskId::parse_text(&rendered).expect("valid uuid string");
    assert_eq!(parsed, task_id);
}

#[test]
fn sibling_order_children_of_returns_the_listed_children_or_none() {
    let (p, a, b, r) = (TaskId::new(), TaskId::new(), TaskId::new(), TaskId::new());
    let order = SiblingOrder::from_entries(vec![(None, vec![p, r]), (Some(p), vec![a, b])]);
    assert_eq!(order.children_of(None), vec![p, r]);
    assert_eq!(order.children_of(Some(p)), vec![a, b]);
    assert!(order.children_of(Some(a)).is_empty());
}

#[test]
fn date_from_ymd_counts_proleptic_gregorian_days_from_year_one() {
    assert_eq!(Date::from_ymd(1, 1, 1).map(|d| d.days), Some(1));
    assert_eq!(Date::from_ymd(0, 1, 1).map(|d| d.days), Some(-365));
    assert_eq!(Date::from_ymd(1970, 1, 1).map(|d| d.days), Some(719_163));
    assert_eq!(Date::from_ymd(2024, 2, 29).map(|d| d.days), Some(738_945));
    assert_eq!(Date::from_ymd(2026, 1, 5).map(|d| d.days), Some(739_621));
    assert_eq!(Date::from_ymd(9999, 12, 31).map(|d| d.days), Some(3_652_059));
}

#[test]
fn date_from_ymd_rejects_what_the_calendar_lacks() {
    assert_eq!(Date::from_ymd(2015, 0, 14), None);
    assert_eq!(Date::from_ymd(2015, 13, 1), None);
    assert_eq!(Date::from_ymd(2015, 2, 29), None);
    assert_eq!(Date::from_ymd(1900, 2, 29), None);
    assert!(Date::from_ymd(2000, 2, 29).is_some());
    assert!(Date::from_ymd(-4, 2, 29).is_some());
    assert_eq!(Date::from_ymd(2015, 4, 31), None);
    assert_eq!(Date::from_ymd(2015, 4, 0), None);
    assert!(Date::from_ymd(262_142, 12, 31).is_some());
    assert_eq!(Date::from_ymd(262_143, 1, 1), None);
    assert!(Date::from_ymd(-262_143, 1, 1).is_some());
    assert_eq!(Date::from_ymd(-262_144, 12, 31), None);
}
