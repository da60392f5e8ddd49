use bala::error::{CoreError, StoreError};
use bala::ids::{Date, TaskId, UserId};

#[test]
fn not_found_display_includes_task_id_debug() {
    let id = TaskId::new();
    let err = CoreError::NotFound(id);
    assert_eq!(err.message(), format!("task {} not found", id.debug_text()));
    assert_eq!(id.debug_text(), format!("TaskId({})", id.to_text()));
}

#[test]
fn empty_title_display_message() {
    assert_eq!(CoreError::EmptyTitle.message(), "title must not be empty");
}

#[test]
fn invalid_date_range_display_message() {
    let start = Date::from_ymd(2026, 1, 10).unwrap();
    let due = Date::from_ymd(2026, 1, 1).unwrap();
    let err = CoreError::InvalidDateRange { start, due };
    assert_eq!(
        err.message(),
        "due date 2026-01-01 is before start date 2026-01-10"
    );
}

#[test]
fn unknown_task_type_display_includes_debug_of_key() {
    let err = CoreError::UnknownTaskType("bogus".to_owned());
    assert_eq!(err.message(), "unknown task type \"bogus\"");
}

#[test]
fn empty_user_name_display_message() {
    assert_eq!(
        CoreError::EmptyUserName.message(),
        "user name must not be empty"
    );
}

#[test]
fn unknown_user_display_includes_user_id_debug() {
    let id = UserId::new();
    let err = CoreError::UnknownUser(id);
    assert_eq!(err.message(), format!("unknown user {}", id.debug_text()));
    assert_eq!(id.debug_text(), format!("UserId({})", id.to_text()));
}

#[test]
fn store_error_display_is_transparent() {
    let store_err = StoreError::Backend("disk full".to_owned());
    let expected = store_err.message();
    let err: CoreError = store_err.into();
    assert_eq!(err.message(), expected);
}

#[test]
fn store_error_converts_via_from_into_core_error() {
    let err: CoreError = StoreError::Backend("boom".to_owned()).into();
    assert!(matches!(err, CoreError::Store(_)));
}

#[test]
fn circular_hierarchy_display_message() {
    let task = TaskId::new();
    let attempted_parent = TaskId::new();
    let err = CoreError::CircularHierarchy {
        task,
        attempted_parent,
    };
    assert_eq!(
        err.message(),
        format!(
            "moving {} under {} would make it its own ancestor",
            task.debug_text(),
            attempted_parent.debug_text()
        )
    );
}

#[test]
fn incomplete_children_display_message() {
    let task = TaskId::new();
    let incomplete = vec![TaskId::new(), TaskId::new()];
    let err = CoreError::IncompleteChildren {
        task,
        incomplete: incomplete.clone(),
    };
    assert_eq!(
        err.message(),
        format!(
            "{} has incomplete children: [{}, {}]; pass cascade=true or complete them first",
            task.debug_text(),
            incomplete[0].debug_text(),
            incomplete[1].debug_text()
        )
    );
}

#[test]
fn not_under_parent_display_names_the_parent() {
    let task = TaskId::new();
    let parent = TaskId::new();
    let err = CoreError::NotUnderParent {
        task,
        parent: Some(parent),
    };
    assert_eq!(
        err.message(),
        format!("{} is not a child of {}", task.debug_text(), parent.debug_text())
    );
}

#[test]
fn not_under_parent_display_names_top_level_for_none() {
    let task = TaskId::new();
    let err = CoreError::NotUnderParent { task, parent: None };
    assert_eq!(
        err.message(),
        format!("{} is not a child of the top level", task.debug_text())
    );
}

#[test]
fn ids_debug_text_matches_the_list_rendering() {
    let ids = vec![TaskId::from_u128(1), TaskId::from_u128(2)];
    assert_eq!(
        bala::error::ids_debug_text(&ids),
        "[TaskId(00000000-0000-0000-0000-000000000001), TaskId(00000000-0000-0000-0000-000000000002)]"
    );
    assert_eq!(bala::error::ids_debug_text(&Vec::new()), "[]");
}
