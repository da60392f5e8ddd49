use bala::error::CoreError;
use bala::facade::Core;
use bala::ids::{Date, TaskId, UserId};
use bala::model::{DeleteMode, Field, NewTask, TaskPatch, TaskStatus, TaskType, TreeFilter};
use bala::store::InMemoryStore;

fn new_core() -> Core {
    Core::new(InMemoryStore::new()).unwrap()
}

fn minimal_new_task(title: &str) -> NewTask {
    NewTask {
        title: title.to_owned(),
        description: None,
        parent_ids: Vec::new(),
        type_key: None,
        start_date: None,
        due_date: None,
        assignee_id: None,
    }
}

#[test]
fn facade_create_task_should_reject_empty_title() {
    let mut core = new_core();

    let result = core.create_task(minimal_new_task(""));

    assert!(matches!(result, Err(CoreError::EmptyTitle)));
}

#[test]
fn facade_create_task_should_reject_whitespace_only_title() {
    let mut core = new_core();

    let result = core.create_task(minimal_new_task("   \t  "));

    assert!(matches!(result, Err(CoreError::EmptyTitle)));
}

#[test]
fn facade_create_task_should_assign_unique_id_and_created_at() {
    let mut core = new_core();

    let a = core.create_task(minimal_new_task("Task A")).unwrap();
    let b = core.create_task(minimal_new_task("Task B")).unwrap();

    assert_ne!(a.id, b.id);
    assert_eq!(a.created_at, a.updated_at);
    assert_eq!(b.created_at, b.updated_at);
}

#[test]
fn facade_create_task_should_default_to_top_level_when_no_parent_given() {
    let mut core = new_core();

    let task = core.create_task(minimal_new_task("Top level")).unwrap();

    assert!(task.parent_ids.is_empty());
}

#[test]
fn facade_create_task_should_attach_to_given_parent_when_parent_ids_provided() {
    let mut core = new_core();
    let parent = core.create_task(minimal_new_task("Parent")).unwrap();

    let child = core
        .create_task(NewTask {
            parent_ids: vec![parent.id],
            ..minimal_new_task("Child")
        })
        .unwrap();

    assert_eq!(child.parent_ids, vec![parent.id]);
}

#[test]
fn facade_create_task_should_reject_when_given_parent_does_not_exist() {
    let mut core = new_core();
    let missing_parent = TaskId::new();

    let result = core.create_task(NewTask {
        parent_ids: vec![missing_parent],
        ..minimal_new_task("Orphan")
    });

    assert!(matches!(result, Err(CoreError::NotFound(id)) if id == missing_parent));
}

#[test]
fn facade_create_task_should_default_type_key_to_task_when_unset() {
    let mut core = new_core();

    let task = core.create_task(minimal_new_task("Untyped")).unwrap();

    assert_eq!(task.type_key, "task");
}

#[test]
fn facade_create_task_should_reject_unknown_type_key() {
    let mut core = new_core();

    let result = core.create_task(NewTask {
        type_key: Some("bogus".to_owned()),
        ..minimal_new_task("Mistyped")
    });

    assert!(matches!(result, Err(CoreError::UnknownTaskType(key)) if key == "bogus"));
}

#[test]
fn facade_create_task_should_store_optional_description_and_dates() {
    let mut core = new_core();
    let start = Date::from_ymd(2026, 1, 1).unwrap();
    let due = Date::from_ymd(2026, 1, 31).unwrap();

    let task = core
        .create_task(NewTask {
            description: Some("Details".to_owned()),
            start_date: Some(start),
            due_date: Some(due),
            ..minimal_new_task("With details")
        })
        .unwrap();

    assert_eq!(task.description.as_deref(), Some("Details"));
    assert_eq!(task.start_date, Some(start));
    assert_eq!(task.due_date, Some(due));
}

#[test]
fn facade_create_task_should_reject_due_date_before_start_date() {
    let mut core = new_core();
    let start = Date::from_ymd(2026, 1, 31).unwrap();
    let due = Date::from_ymd(2026, 1, 1).unwrap();

    let result = core.create_task(NewTask {
        start_date: Some(start),
        due_date: Some(due),
        ..minimal_new_task("Backwards dates")
    });

    assert!(matches!(
        result,
        Err(CoreError::InvalidDateRange { start: s, due: d }) if s == start && d == due
    ));
}

#[test]
fn create_task_should_run_hierarchy_check_for_each_given_parent() {
    // The hierarchy check is a no-op at this checkpoint (Story 3.1
    // gives it teeth), so the honest thing to assert here is that
    // attaching a task under several parents in one call still
    // succeeds and records every edge — i.e. the per-parent check
    // (`hierarchy::check_new_parent`) runs without rejecting any of
    // them. `hierarchy::tests::check_new_parent_always_succeeds_for_a_fresh_child`
    // separately unit-tests the function itself.
    let mut core = new_core();
    let parent_a = core.create_task(minimal_new_task("Parent A")).unwrap();
    let parent_b = core.create_task(minimal_new_task("Parent B")).unwrap();

    let child = core
        .create_task(NewTask {
            parent_ids: vec![parent_a.id, parent_b.id],
            ..minimal_new_task("Multi-parent child")
        })
        .unwrap();

    assert_eq!(child.parent_ids, vec![parent_a.id, parent_b.id]);
}

#[test]
fn facade_get_tree_should_include_a_just_created_task() {
    let mut core = new_core();

    let created = core.create_task(minimal_new_task("Findable")).unwrap();
    let tree = core.get_tree(TreeFilter::default()).unwrap();

    assert!(tree.contains(&created));
}

#[test]
fn facade_new_should_seed_default_task_type() {
    let core = new_core();

    let types = core.list_task_types().unwrap();

    assert!(types.iter().any(|t| t.key == "task"));
}

#[test]
fn facade_new_is_idempotent_about_seeding_the_default_task_type() {
    let store = InMemoryStore::new();
    let core_a = Core::new(store).unwrap();
    let types_after_first = core_a.list_task_types().unwrap();
    assert_eq!(
        types_after_first.iter().filter(|t| t.key == "task").count(),
        1
    );

    // Re-seeding over a store that already has the default leaves it
    // as a single entry, not a duplicate.
    let mut store_with_default = InMemoryStore::new();
    store_with_default.put_task_type(&TaskType {
        key: "task".to_owned(),
        label: "Task".to_owned(),
        color: None,
        sort_order: 0,
    });
    let core_b = Core::new(store_with_default).unwrap();
    let types_after_second = core_b.list_task_types().unwrap();
    assert_eq!(
        types_after_second
            .iter()
            .filter(|t| t.key == "task")
            .count(),
        1
    );
}

#[test]
fn facade_list_task_types_and_upsert_task_type_round_trip() {
    let mut core = new_core();
    let goal = TaskType {
        key: "goal".to_owned(),
        label: "Goal".to_owned(),
        color: None,
        sort_order: 1,
    };

    let upserted = core.upsert_task_type(goal.clone()).unwrap();
    let types = core.list_task_types().unwrap();

    assert_eq!(upserted, goal);
    assert!(types.contains(&goal));
}

#[test]
fn facade_create_task_uses_status_incomplete() {
    let mut core = new_core();

    let task = core.create_task(minimal_new_task("New")).unwrap();

    assert_eq!(task.status, TaskStatus::Incomplete);
}

#[test]
fn create_user_should_reject_empty_name() {
    let mut core = new_core();

    let result = core.create_user(String::new());

    assert!(matches!(result, Err(CoreError::EmptyUserName)));
}

#[test]
fn create_user_should_reject_whitespace_only_name() {
    let mut core = new_core();

    let result = core.create_user("   \t  ".to_owned());

    assert!(matches!(result, Err(CoreError::EmptyUserName)));
}

#[test]
fn create_user_should_assign_unique_id() {
    let mut core = new_core();

    let a = core.create_user("Ada".to_owned()).unwrap();
    let b = core.create_user("Grace".to_owned()).unwrap();

    assert_ne!(a.id, b.id);
}

#[test]
fn list_users_should_include_a_just_created_user() {
    let mut core = new_core();

    let created = core.create_user("Findable".to_owned()).unwrap();
    let users = core.list_users().unwrap();

    assert!(users.contains(&created));
}

#[test]
fn create_task_should_store_given_assignee_id() {
    let mut core = new_core();
    let user = core.create_user("Ada".to_owned()).unwrap();

    let task = core
        .create_task(NewTask {
            assignee_id: Some(user.id),
            ..minimal_new_task("Assigned")
        })
        .unwrap();

    assert_eq!(task.assignee_id, Some(user.id));
}

#[test]
fn create_task_should_default_assignee_to_none_when_unset() {
    let mut core = new_core();

    let task = core.create_task(minimal_new_task("Unassigned")).unwrap();

    assert!(task.assignee_id.is_none());
}

#[test]
fn create_task_should_reject_unknown_assignee_id() {
    let mut core = new_core();
    let unknown_assignee = UserId::new();

    let result = core.create_task(NewTask {
        assignee_id: Some(unknown_assignee),
        ..minimal_new_task("Orphan assignee")
    });

    assert!(matches!(result, Err(CoreError::UnknownUser(id)) if id == unknown_assignee));
}

#[test]
fn get_tree_should_filter_by_assignee_id() {
    let mut core = new_core();
    let alice = core.create_user("Alice".to_owned()).unwrap();
    let bob = core.create_user("Bob".to_owned()).unwrap();

    let alice_task = core
        .create_task(NewTask {
            assignee_id: Some(alice.id),
            ..minimal_new_task("Alice's task")
        })
        .unwrap();
    core.create_task(NewTask {
        assignee_id: Some(bob.id),
        ..minimal_new_task("Bob's task")
    })
    .unwrap();

    let tree = core
        .get_tree(TreeFilter {
            assignee_id: Some(alice.id),
            ..TreeFilter::default()
        })
        .unwrap();

    assert_eq!(tree, vec![alice_task]);
}

#[test]
fn update_task_should_reject_when_task_not_found() {
    let mut core = new_core();
    let missing = TaskId::new();

    let result = core.update_task(missing, TaskPatch::default());

    assert!(matches!(result, Err(CoreError::NotFound(id)) if id == missing));
}

#[test]
fn update_task_should_update_title_when_set() {
    let mut core = new_core();
    let task = core.create_task(minimal_new_task("Original")).unwrap();

    let updated = core
        .update_task(
            task.id,
            TaskPatch {
                title: Field::Assign("Renamed".to_owned()),
                ..Default::default()
            },
        )
        .unwrap();

    assert_eq!(updated[0].title, "Renamed");
}

#[test]
fn update_task_should_leave_title_unchanged_when_kept() {
    let mut core = new_core();
    let task = core.create_task(minimal_new_task("Original")).unwrap();

    let updated = core.update_task(task.id, TaskPatch::default()).unwrap();

    assert_eq!(updated[0].title, "Original");
}

#[test]
fn update_task_should_reject_empty_title() {
    let mut core = new_core();
    let task = core.create_task(minimal_new_task("Original")).unwrap();

    let result = core.update_task(
        task.id,
        TaskPatch {
            title: Field::Assign(String::new()),
            ..Default::default()
        },
    );

    assert!(matches!(result, Err(CoreError::EmptyTitle)));
}

#[test]
fn update_task_should_reject_whitespace_only_title() {
    let mut core = new_core();
    let task = core.create_task(minimal_new_task("Original")).unwrap();

    let result = core.update_task(
        task.id,
        TaskPatch {
            title: Field::Assign("   \t  ".to_owned()),
            ..Default::default()
        },
    );

    assert!(matches!(result, Err(CoreError::EmptyTitle)));
}

#[test]
fn update_task_should_set_and_clear_description() {
    let mut core = new_core();
    let task = core.create_task(minimal_new_task("Task")).unwrap();

    let updated = core
        .update_task(
            task.id,
            TaskPatch {
                description: Field::Assign("Details".to_owned()),
                ..Default::default()
            },
        )
        .unwrap();
    assert_eq!(updated[0].description.as_deref(), Some("Details"));

    let cleared = core
        .update_task(
            task.id,
            TaskPatch {
                description: Field::Clear,
                ..Default::default()
            },
        )
        .unwrap();
    assert_eq!(cleared[0].description, None);
}

#[test]
fn update_task_should_set_and_clear_start_and_due_dates() {
    let mut core = new_core();
    let task = core.create_task(minimal_new_task("Task")).unwrap();
    let start = Date::from_ymd(2026, 1, 1).unwrap();
    let due = Date::from_ymd(2026, 1, 31).unwrap();

    let updated = core
        .update_task(
            task.id,
            TaskPatch {
                start_date: Field::Assign(start),
                due_date: Field::Assign(due),
                ..Default::default()
            },
        )
        .unwrap();
    assert_eq!(updated[0].start_date, Some(start));
    assert_eq!(updated[0].due_date, Some(due));

    let cleared = core
        .update_task(
            task.id,
            TaskPatch {
                start_date: Field::Clear,
                due_date: Field::Clear,
                ..Default::default()
            },
        )
        .unwrap();
    assert_eq!(cleared[0].start_date, None);
    assert_eq!(cleared[0].due_date, None);
}

#[test]
fn update_task_should_reject_due_date_before_start_date_after_patch() {
    let mut core = new_core();
    let start = Date::from_ymd(2026, 1, 1).unwrap();
    let earlier_due = Date::from_ymd(2025, 12, 1).unwrap();
    let task = core
        .create_task(NewTask {
            start_date: Some(start),
            ..minimal_new_task("Task")
        })
        .unwrap();

    let result = core.update_task(
        task.id,
        TaskPatch {
            due_date: Field::Assign(earlier_due),
            ..Default::default()
        },
    );

    assert!(matches!(
        result,
        Err(CoreError::InvalidDateRange { start: s, due: d }) if s == start && d == earlier_due
    ));
}

#[test]
fn update_task_should_set_and_clear_assignee() {
    let mut core = new_core();
    let user = core.create_user("Ada".to_owned()).unwrap();
    let task = core.create_task(minimal_new_task("Task")).unwrap();

    let updated = core
        .update_task(
            task.id,
            TaskPatch {
                assignee_id: Field::Assign(user.id),
                ..Default::default()
            },
        )
        .unwrap();
    assert_eq!(updated[0].assignee_id, Some(user.id));

    let cleared = core
        .update_task(
            task.id,
            TaskPatch {
                assignee_id: Field::Clear,
                ..Default::default()
            },
        )
        .unwrap();
    assert_eq!(cleared[0].assignee_id, None);
}

#[test]
fn update_task_should_reject_unknown_assignee_id() {
    let mut core = new_core();
    let task = core.create_task(minimal_new_task("Task")).unwrap();
    let unknown_assignee = UserId::new();

    let result = core.update_task(
        task.id,
        TaskPatch {
            assignee_id: Field::Assign(unknown_assignee),
            ..Default::default()
        },
    );

    assert!(matches!(result, Err(CoreError::UnknownUser(id)) if id == unknown_assignee));
}

#[test]
fn update_task_should_update_type_key_when_set() {
    let mut core = new_core();
    let goal = TaskType {
        key: "goal".to_owned(),
        label: "Goal".to_owned(),
        color: None,
        sort_order: 1,
    };
    core.upsert_task_type(goal).unwrap();
    let task = core.create_task(minimal_new_task("Task")).unwrap();

    let updated = core
        .update_task(
            task.id,
            TaskPatch {
                type_key: Field::Assign("goal".to_owned()),
                ..Default::default()
            },
        )
        .unwrap();

    assert_eq!(updated[0].type_key, "goal");
}

#[test]
fn update_task_should_reject_unknown_type_key() {
    let mut core = new_core();
    let task = core.create_task(minimal_new_task("Task")).unwrap();

    let result = core.update_task(
        task.id,
        TaskPatch {
            type_key: Field::Assign("bogus".to_owned()),
            ..Default::default()
        },
    );

    assert!(matches!(result, Err(CoreError::UnknownTaskType(key)) if key == "bogus"));
}

#[test]
fn update_task_should_bump_updated_at_but_not_created_at() {
    let mut core = new_core();
    let task = core.create_task(minimal_new_task("Task")).unwrap();

    let updated = core
        .update_task(
            task.id,
            TaskPatch {
                title: Field::Assign("Renamed".to_owned()),
                ..Default::default()
            },
        )
        .unwrap();

    assert_eq!(updated[0].created_at, task.created_at);
    assert!(updated[0].updated_at >= task.updated_at);
}

#[test]
fn update_task_should_not_change_subtasks_dates() {
    let mut core = new_core();
    let parent = core.create_task(minimal_new_task("Parent")).unwrap();
    let child_start = Date::from_ymd(2026, 2, 1).unwrap();
    let child_due = Date::from_ymd(2026, 2, 28).unwrap();
    let child = core
        .create_task(NewTask {
            parent_ids: vec![parent.id],
            start_date: Some(child_start),
            due_date: Some(child_due),
            ..minimal_new_task("Child")
        })
        .unwrap();

    let new_start = Date::from_ymd(2026, 1, 1).unwrap();
    let new_due = Date::from_ymd(2026, 1, 15).unwrap();
    core.update_task(
        parent.id,
        TaskPatch {
            start_date: Field::Assign(new_start),
            due_date: Field::Assign(new_due),
            ..Default::default()
        },
    )
    .unwrap();

    let tree = core.get_tree(TreeFilter::default()).unwrap();
    let child_after = tree.iter().find(|t| t.id == child.id).unwrap();
    assert_eq!(child_after.start_date, Some(child_start));
    assert_eq!(child_after.due_date, Some(child_due));
}

#[test]
fn update_task_should_return_only_the_updated_task() {
    let mut core = new_core();
    let task = core.create_task(minimal_new_task("Task")).unwrap();

    let result = core
        .update_task(
            task.id,
            TaskPatch {
                title: Field::Assign("Renamed".to_owned()),
                ..Default::default()
            },
        )
        .unwrap();

    assert_eq!(result.len(), 1);
    assert_eq!(result[0].title, "Renamed");
}

#[test]
fn delete_task_should_reject_when_task_not_found() {
    let mut core = new_core();
    let missing = TaskId::new();

    let result = core.delete_task(missing, DeleteMode::Subtree);

    assert!(matches!(result, Err(CoreError::NotFound(id)) if id == missing));
}

#[test]
fn delete_task_should_tombstone_leaf_task() {
    let mut core = new_core();
    let task = core.create_task(minimal_new_task("Leaf")).unwrap();

    let touched = core.delete_task(task.id, DeleteMode::Subtree).unwrap();

    assert_eq!(touched.len(), 1);
    assert_eq!(touched[0].id, task.id);
    assert!(touched[0].deleted_at.is_some());

    // A second delete on the same (now soft-deleted) task is treated
    // as not-found, not re-tombstoned.
    let result = core.delete_task(task.id, DeleteMode::Subtree);
    assert!(matches!(result, Err(CoreError::NotFound(id)) if id == task.id));
}

#[test]
fn delete_task_subtree_should_tombstone_child_with_no_other_parents() {
    let mut core = new_core();
    let parent = core.create_task(minimal_new_task("Parent")).unwrap();
    let child = core
        .create_task(NewTask {
            parent_ids: vec![parent.id],
            ..minimal_new_task("Child")
        })
        .unwrap();

    core.delete_task(parent.id, DeleteMode::Subtree).unwrap();

    let tree = core
        .get_tree(TreeFilter {
            include_deleted: true,
            ..TreeFilter::default()
        })
        .unwrap();
    let child_after = tree.iter().find(|t| t.id == child.id).unwrap();
    assert!(child_after.deleted_at.is_some());
}

#[test]
fn delete_subtree_should_keep_child_reachable_through_other_parent() {
    let mut core = new_core();
    let parent_a = core.create_task(minimal_new_task("Goal A")).unwrap();
    let parent_b = core.create_task(minimal_new_task("Goal B")).unwrap();
    let child = core
        .create_task(NewTask {
            parent_ids: vec![parent_a.id, parent_b.id],
            ..minimal_new_task("Shared child")
        })
        .unwrap();

    core.delete_task(parent_a.id, DeleteMode::Subtree).unwrap();

    let tree = core.get_tree(TreeFilter::default()).unwrap();
    let child_after = tree.iter().find(|t| t.id == child.id).unwrap();
    assert!(child_after.deleted_at.is_none());
    assert_eq!(child_after.parent_ids, vec![parent_b.id]);
}

#[test]
fn delete_task_subtree_should_recurse_through_multiple_levels() {
    let mut core = new_core();
    let root = core.create_task(minimal_new_task("Root")).unwrap();
    let mid = core
        .create_task(NewTask {
            parent_ids: vec![root.id],
            ..minimal_new_task("Mid")
        })
        .unwrap();
    let leaf = core
        .create_task(NewTask {
            parent_ids: vec![mid.id],
            ..minimal_new_task("Leaf")
        })
        .unwrap();
    let deepest = core
        .create_task(NewTask {
            parent_ids: vec![leaf.id],
            ..minimal_new_task("Deepest")
        })
        .unwrap();

    let touched = core.delete_task(root.id, DeleteMode::Subtree).unwrap();

    let touched_ids: std::collections::HashSet<_> = touched.iter().map(|t| t.id).collect();
    assert!(touched_ids.contains(&root.id));
    assert!(touched_ids.contains(&mid.id));
    assert!(touched_ids.contains(&leaf.id));
    assert!(touched_ids.contains(&deepest.id));

    let tree = core
        .get_tree(TreeFilter {
            include_deleted: true,
            ..TreeFilter::default()
        })
        .unwrap();
    for id in [root.id, mid.id, leaf.id, deepest.id] {
        let task = tree.iter().find(|t| t.id == id).unwrap();
        assert!(task.deleted_at.is_some(), "{id:?} should be tombstoned");
    }
}

#[test]
fn delete_task_subtree_should_not_overflow_the_stack_on_a_deep_chain() {
    // Regression test: `create_task` places no limit on nesting depth,
    // so `tombstone_subtree` must walk an arbitrarily deep chain via an
    // explicit work stack rather than Rust call recursion — a naive
    // recursive walk would overflow the process stack well before this
    // many levels.
    let mut core = new_core();
    let root = core.create_task(minimal_new_task("Root")).unwrap();
    let mut current = root.id;
    for i in 0..5000 {
        let task = core
            .create_task(NewTask {
                parent_ids: vec![current],
                ..minimal_new_task(&format!("Level {i}"))
            })
            .unwrap();
        current = task.id;
    }

    let touched = core.delete_task(root.id, DeleteMode::Subtree).unwrap();

    assert_eq!(touched.len(), 5001);
    assert!(touched.iter().all(|t| t.deleted_at.is_some()));
}

#[test]
fn delete_task_promote_children_should_reparent_child_to_deleted_tasks_parents() {
    let mut core = new_core();
    let grandparent = core.create_task(minimal_new_task("Grandparent")).unwrap();
    let parent = core
        .create_task(NewTask {
            parent_ids: vec![grandparent.id],
            ..minimal_new_task("Parent")
        })
        .unwrap();
    let child = core
        .create_task(NewTask {
            parent_ids: vec![parent.id],
            ..minimal_new_task("Child")
        })
        .unwrap();

    core.delete_task(parent.id, DeleteMode::PromoteChildren)
        .unwrap();

    let tree = core.get_tree(TreeFilter::default()).unwrap();
    let child_after = tree.iter().find(|t| t.id == child.id).unwrap();
    assert_eq!(child_after.parent_ids, vec![grandparent.id]);
}

#[test]
fn delete_task_promote_children_should_make_child_top_level_when_deleted_task_had_no_parents() {
    let mut core = new_core();
    let parent = core.create_task(minimal_new_task("Parent")).unwrap();
    let child = core
        .create_task(NewTask {
            parent_ids: vec![parent.id],
            ..minimal_new_task("Child")
        })
        .unwrap();

    core.delete_task(parent.id, DeleteMode::PromoteChildren)
        .unwrap();

    let tree = core.get_tree(TreeFilter::default()).unwrap();
    let child_after = tree.iter().find(|t| t.id == child.id).unwrap();
    assert!(child_after.parent_ids.is_empty());
}

#[test]
fn delete_task_promote_children_should_add_parent_alongside_existing_other_parents() {
    let mut core = new_core();
    let grandparent = core.create_task(minimal_new_task("Grandparent")).unwrap();
    let parent = core
        .create_task(NewTask {
            parent_ids: vec![grandparent.id],
            ..minimal_new_task("Parent")
        })
        .unwrap();
    let other_parent = core.create_task(minimal_new_task("Other parent")).unwrap();
    let child = core
        .create_task(NewTask {
            parent_ids: vec![parent.id, other_parent.id],
            ..minimal_new_task("Child")
        })
        .unwrap();

    core.delete_task(parent.id, DeleteMode::PromoteChildren)
        .unwrap();

    let tree = core.get_tree(TreeFilter::default()).unwrap();
    let child_after = tree.iter().find(|t| t.id == child.id).unwrap();
    let parents: std::collections::HashSet<_> =
        child_after.parent_ids.iter().copied().collect();
    let expected: std::collections::HashSet<_> =
        [other_parent.id, grandparent.id].into_iter().collect();
    assert_eq!(parents, expected);
}

#[test]
fn delete_task_promote_children_should_not_duplicate_parent_edge_when_child_already_shares_a_grandparent()
 {
    // Regression test: `child` already has `grandparent` as a parent
    // (alongside `parent`, which is being deleted) — `PromoteChildren`
    // then tries to add a `grandparent -> child` edge that already
    // exists. `add_parent_edge` must treat that as a no-op rather than
    // a duplicate entry, so `parent_ids` still names `grandparent`
    // exactly once afterward.
    let mut core = new_core();
    let grandparent = core.create_task(minimal_new_task("Grandparent")).unwrap();
    let parent = core
        .create_task(NewTask {
            parent_ids: vec![grandparent.id],
            ..minimal_new_task("Parent")
        })
        .unwrap();
    let child = core
        .create_task(NewTask {
            parent_ids: vec![parent.id, grandparent.id],
            ..minimal_new_task("Child")
        })
        .unwrap();

    core.delete_task(parent.id, DeleteMode::PromoteChildren)
        .unwrap();

    let tree = core.get_tree(TreeFilter::default()).unwrap();
    let child_after = tree.iter().find(|t| t.id == child.id).unwrap();
    assert_eq!(child_after.parent_ids, vec![grandparent.id]);
}

#[test]
fn deleted_task_should_be_excluded_from_get_tree_by_default() {
    let mut core = new_core();
    let task = core.create_task(minimal_new_task("Task")).unwrap();

    core.delete_task(task.id, DeleteMode::Subtree).unwrap();

    let tree = core.get_tree(TreeFilter::default()).unwrap();
    assert!(!tree.iter().any(|t| t.id == task.id));
}

#[test]
fn get_tree_should_include_deleted_task_when_filter_requests_it() {
    let mut core = new_core();
    let task = core.create_task(minimal_new_task("Task")).unwrap();

    core.delete_task(task.id, DeleteMode::Subtree).unwrap();

    let tree = core
        .get_tree(TreeFilter {
            include_deleted: true,
            ..TreeFilter::default()
        })
        .unwrap();
    assert!(tree.iter().any(|t| t.id == task.id));
}

#[test]
fn restore_task_should_reject_when_task_does_not_exist_at_all() {
    let mut core = new_core();
    let missing = TaskId::new();

    let result = core.restore_task(missing);

    assert!(matches!(result, Err(CoreError::NotFound(id)) if id == missing));
}

#[test]
fn restore_task_should_clear_deleted_at_and_make_task_visible_again() {
    let mut core = new_core();
    let task = core.create_task(minimal_new_task("Task")).unwrap();
    core.delete_task(task.id, DeleteMode::Subtree).unwrap();

    let restored = core.restore_task(task.id).unwrap();

    assert!(restored.deleted_at.is_none());
    let tree = core.get_tree(TreeFilter::default()).unwrap();
    assert!(tree.iter().any(|t| t.id == task.id));
}

#[test]
fn restore_task_should_be_idempotent_when_task_is_already_live() {
    let mut core = new_core();
    let task = core.create_task(minimal_new_task("Task")).unwrap();

    let restored = core.restore_task(task.id).unwrap();

    assert!(restored.deleted_at.is_none());
    assert_eq!(restored.id, task.id);
}

#[test]
fn restore_task_should_bump_updated_at() {
    let mut core = new_core();
    let task = core.create_task(minimal_new_task("Task")).unwrap();
    core.delete_task(task.id, DeleteMode::Subtree).unwrap();

    let restored = core.restore_task(task.id).unwrap();

    assert!(restored.updated_at >= task.updated_at);
}

#[test]
fn delete_task_should_return_every_task_actually_touched() {
    let mut core = new_core();
    let parent_a = core.create_task(minimal_new_task("Parent A")).unwrap();
    let parent_b = core.create_task(minimal_new_task("Parent B")).unwrap();
    let shared_child = core
        .create_task(NewTask {
            parent_ids: vec![parent_a.id, parent_b.id],
            ..minimal_new_task("Shared child")
        })
        .unwrap();
    let only_child = core
        .create_task(NewTask {
            parent_ids: vec![parent_a.id],
            ..minimal_new_task("Only child")
        })
        .unwrap();

    let touched = core.delete_task(parent_a.id, DeleteMode::Subtree).unwrap();

    let touched_ids: std::collections::HashSet<_> = touched.iter().map(|t| t.id).collect();
    assert!(touched_ids.contains(&parent_a.id));
    assert!(touched_ids.contains(&only_child.id));
    assert!(touched_ids.contains(&shared_child.id));
    assert!(!touched_ids.contains(&parent_b.id));
}

#[test]
fn complete_task_should_reject_when_task_not_found() {
    let mut core = new_core();
    let missing = TaskId::new();

    let result = core.complete_task(missing, false);

    assert!(matches!(result, Err(CoreError::NotFound(id)) if id == missing));
}

#[test]
fn complete_task_should_mark_leaf_task_complete_and_set_completed_at() {
    let mut core = new_core();
    let task = core.create_task(minimal_new_task("Leaf")).unwrap();

    let touched = core.complete_task(task.id, false).unwrap();

    assert_eq!(touched.len(), 1);
    assert_eq!(touched[0].id, task.id);
    assert_eq!(touched[0].status, TaskStatus::Complete);
    assert!(touched[0].completed_at.is_some());
}

#[test]
fn complete_task_should_block_when_children_incomplete_and_cascade_false() {
    let mut core = new_core();
    let parent = core.create_task(minimal_new_task("Parent")).unwrap();
    let child = core
        .create_task(NewTask {
            parent_ids: vec![parent.id],
            ..minimal_new_task("Child")
        })
        .unwrap();

    let result = core.complete_task(parent.id, false);

    assert!(matches!(
        result,
        Err(CoreError::IncompleteChildren { task, incomplete })
            if task == parent.id && incomplete == vec![child.id]
    ));

    // Nothing should have been written.
    let tree = core.get_tree(TreeFilter::default()).unwrap();
    let parent_after = tree.iter().find(|t| t.id == parent.id).unwrap();
    assert_eq!(parent_after.status, TaskStatus::Incomplete);
}

#[test]
fn complete_task_should_cascade_complete_whole_subtree_when_cascade_true() {
    let mut core = new_core();
    let root = core.create_task(minimal_new_task("Root")).unwrap();
    let mid = core
        .create_task(NewTask {
            parent_ids: vec![root.id],
            ..minimal_new_task("Mid")
        })
        .unwrap();
    let leaf = core
        .create_task(NewTask {
            parent_ids: vec![mid.id],
            ..minimal_new_task("Leaf")
        })
        .unwrap();

    let touched = core.complete_task(root.id, true).unwrap();

    let touched_ids: std::collections::HashSet<_> = touched.iter().map(|t| t.id).collect();
    assert!(touched_ids.contains(&root.id));
    assert!(touched_ids.contains(&mid.id));
    assert!(touched_ids.contains(&leaf.id));
    assert!(touched.iter().all(|t| t.status == TaskStatus::Complete));
    assert!(touched.iter().all(|t| t.completed_at.is_some()));
}

#[test]
fn complete_task_should_not_require_cascade_when_children_already_complete() {
    let mut core = new_core();
    let parent = core.create_task(minimal_new_task("Parent")).unwrap();
    let child = core
        .create_task(NewTask {
            parent_ids: vec![parent.id],
            ..minimal_new_task("Child")
        })
        .unwrap();
    core.complete_task(child.id, false).unwrap();

    let touched = core.complete_task(parent.id, false).unwrap();

    assert_eq!(touched.len(), 1);
    assert_eq!(touched[0].id, parent.id);
    assert_eq!(touched[0].status, TaskStatus::Complete);
}

#[test]
fn complete_task_should_return_every_task_actually_completed() {
    let mut core = new_core();
    let root = core.create_task(minimal_new_task("Root")).unwrap();
    let child_a = core
        .create_task(NewTask {
            parent_ids: vec![root.id],
            ..minimal_new_task("Child A")
        })
        .unwrap();
    let child_b = core
        .create_task(NewTask {
            parent_ids: vec![root.id],
            ..minimal_new_task("Child B")
        })
        .unwrap();
    // Pre-complete child_b so cascading over it doesn't double-count it.
    core.complete_task(child_b.id, false).unwrap();

    let touched = core.complete_task(root.id, true).unwrap();

    let touched_ids: std::collections::HashSet<_> = touched.iter().map(|t| t.id).collect();
    assert!(touched_ids.contains(&root.id));
    assert!(touched_ids.contains(&child_a.id));
    // child_b was already complete before this call, so it is not
    // counted as "actually completed" by this call.
    assert!(!touched_ids.contains(&child_b.id));
    assert_eq!(touched.len(), 2);
}

#[test]
fn complete_task_should_bump_updated_at() {
    let mut core = new_core();
    let task = core.create_task(minimal_new_task("Task")).unwrap();

    let touched = core.complete_task(task.id, false).unwrap();

    assert_eq!(touched[0].created_at, task.created_at);
    assert!(touched[0].updated_at >= task.updated_at);
}

#[test]
fn complete_task_should_be_a_no_op_when_already_complete() {
    // Regression test: completing an already-complete leaf task must not
    // return it as newly touched or clobber its original `completed_at`,
    // matching `mark_complete_subtree`'s own "skip already-complete"
    // behavior under cascade.
    let mut core = new_core();
    let task = core.create_task(minimal_new_task("Task")).unwrap();
    let first = core.complete_task(task.id, false).unwrap();
    let first_completed_at = first[0].completed_at;

    let second = core.complete_task(task.id, false).unwrap();

    assert!(second.is_empty());
    let stored = core
        .get_tree(TreeFilter::default())
        .unwrap()
        .into_iter()
        .find(|t| t.id == task.id)
        .unwrap();
    assert_eq!(stored.completed_at, first_completed_at);
}

#[test]
fn complete_task_subtree_should_not_overflow_stack_on_a_deep_chain() {
    // Regression test mirroring
    // `delete_task_subtree_should_not_overflow_the_stack_on_a_deep_chain`:
    // the subtree walk must use an explicit work stack, not Rust call
    // recursion, so it doesn't overflow on a deep chain.
    let mut core = new_core();
    let root = core.create_task(minimal_new_task("Root")).unwrap();
    let mut current = root.id;
    for i in 0..5000 {
        let task = core
            .create_task(NewTask {
                parent_ids: vec![current],
                ..minimal_new_task(&format!("Level {i}"))
            })
            .unwrap();
        current = task.id;
    }

    let touched = core.complete_task(root.id, true).unwrap();

    assert_eq!(touched.len(), 5001);
    assert!(touched.iter().all(|t| t.status == TaskStatus::Complete));
}

#[test]
fn complete_task_without_cascade_should_name_every_open_descendant() {
    let mut core = new_core();
    let parent = core.create_task(minimal_new_task("Parent")).unwrap();
    let child = core
        .create_task(NewTask { parent_ids: vec![parent.id], ..minimal_new_task("Child") })
        .unwrap();
    let grandchild = core
        .create_task(NewTask { parent_ids: vec![child.id], ..minimal_new_task("Grandchild") })
        .unwrap();

    let result = core.complete_task(parent.id, false);

    match result {
        Err(CoreError::IncompleteChildren { task, mut incomplete }) => {
            assert_eq!(task, parent.id);
            incomplete.sort_by_key(|id| id.as_u128());
            let mut expected = vec![child.id, grandchild.id];
            expected.sort_by_key(|id| id.as_u128());
            assert_eq!(incomplete, expected);
        }
        other => panic!("expected IncompleteChildren, got {other:?}"),
    }
    let parent_after = core.get_task(parent.id).unwrap().unwrap();
    assert_eq!(parent_after.status, TaskStatus::Incomplete);
}

#[test]
fn complete_task_should_block_on_an_open_grandchild_under_a_complete_child() {
    let mut core = new_core();
    let parent = core.create_task(minimal_new_task("Parent")).unwrap();
    let child = core
        .create_task(NewTask { parent_ids: vec![parent.id], ..minimal_new_task("Child") })
        .unwrap();
    let grandchild = core
        .create_task(NewTask { parent_ids: vec![child.id], ..minimal_new_task("Grandchild") })
        .unwrap();
    core.complete_task(child.id, true).unwrap();
    core.reopen_task(grandchild.id).unwrap();

    let result = core.complete_task(parent.id, false);

    assert!(matches!(
        result,
        Err(CoreError::IncompleteChildren { task, incomplete })
            if task == parent.id && incomplete == vec![grandchild.id]
    ));
}

#[test]
fn create_task_hands_back_the_parents_as_given() {
    let mut core = new_core();
    let parent = core.create_task(minimal_new_task("Parent")).unwrap();

    let child = core
        .create_task(NewTask { parent_ids: vec![parent.id, parent.id], ..minimal_new_task("Child") })
        .unwrap();

    assert_eq!(child.parent_ids, vec![parent.id, parent.id]);
    let stored = core.get_task(child.id).unwrap().unwrap();
    assert_eq!(stored.parent_ids, vec![parent.id]);
    assert_eq!(core.list_children(parent.id).unwrap().len(), 1);
}
