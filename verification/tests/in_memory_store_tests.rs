use bala::ids::{TaskId, Timestamp, UserId};
use bala::model::{Parents, Placement, Progress, Task, TaskStatus, TaskType, TreeFilter, User};
use bala::store::InMemoryStore;

fn sample_task(type_key: &str, status: TaskStatus) -> Task {
    let now = Timestamp::now();
    Task {
        id: TaskId::new(),
        title: "Title".to_owned(),
        description: None,
        parent_ids: Vec::new(),
        type_key: type_key.to_owned(),
        status,
        // A stored row carries no computed progress: it reads back as 0/1.
        progress: Progress { complete: 0, total: 1 },
        start_date: None,
        due_date: None,
        assignee_id: None,
        created_at: now,
        updated_at: now,
        deleted_at: None,
        completed_at: None,
    }
}

#[test]
fn in_memory_store_put_task_then_get_task_returns_same_task() {
    let mut store = InMemoryStore::new();
    let task = sample_task("task", TaskStatus::Incomplete);

    store.put_task(&task);

    let fetched = store.get_task(task.id);
    assert_eq!(fetched, Some(task));
}

#[test]
fn in_memory_store_get_task_for_unknown_id_returns_none() {
    let store = InMemoryStore::new();
    let fetched = store.get_task(TaskId::new());
    assert_eq!(fetched, None);
}

#[test]
fn in_memory_store_list_tasks_with_no_filter_returns_all_tasks() {
    let mut store = InMemoryStore::new();
    let a = sample_task("task", TaskStatus::Incomplete);
    let b = sample_task("goal", TaskStatus::Complete);

    store.put_task(&a);
    store.put_task(&b);

    let mut listed = store.list_tasks(&TreeFilter::default());
    listed.sort_by_key(|t| t.id.as_u128());
    let mut expected = vec![a, b];
    expected.sort_by_key(|t| t.id.as_u128());
    assert_eq!(listed, expected);
}

#[test]
fn in_memory_store_list_tasks_filters_by_type_key() {
    let mut store = InMemoryStore::new();
    let goal = sample_task("goal", TaskStatus::Incomplete);
    let task = sample_task("task", TaskStatus::Incomplete);

    store.put_task(&goal);
    store.put_task(&task);

    let filter = TreeFilter {
        type_key: Some("goal".to_owned()),
        ..TreeFilter::default()
    };
    let listed = store.list_tasks(&filter);
    assert_eq!(listed, vec![goal]);
}

#[test]
fn in_memory_store_list_tasks_filters_by_status() {
    let mut store = InMemoryStore::new();
    let done = sample_task("task", TaskStatus::Complete);
    let not_done = sample_task("task", TaskStatus::Incomplete);

    store.put_task(&done);
    store.put_task(&not_done);

    let filter = TreeFilter {
        status: Some(TaskStatus::Complete),
        ..TreeFilter::default()
    };
    let listed = store.list_tasks(&filter);
    assert_eq!(listed, vec![done]);
}

#[test]
fn in_memory_store_list_parent_edges_for_task_with_no_parents_returns_empty() {
    let store = InMemoryStore::new();
    let edges = store.list_parent_edges(TaskId::new());
    assert!(edges.is_empty());
}

#[test]
fn in_memory_store_replace_parent_edges_then_list_parent_edges_returns_it() {
    let mut store = InMemoryStore::new();
    let parent = TaskId::new();
    let child = TaskId::new();

    store.replace_parent_edges(child, &Parents::Under(vec![parent]), Placement::End);

    let edges = store.list_parent_edges(child);
    assert_eq!(edges, vec![parent]);
}

#[test]
fn in_memory_store_top_level_task_should_have_single_null_parent_edge() {
    let mut store = InMemoryStore::new();
    let a = TaskId::new();
    store.replace_parent_edges(a, &Parents::TopLevel, Placement::End);
    store.replace_parent_edges(a, &Parents::TopLevel, Placement::End);
    assert_eq!(store.list_child_edges(None), vec![a]);
    assert!(store.list_parent_edges(a).is_empty());
    // Moving under a real parent drops the top-level edge; moving back restores one.
    let p = TaskId::new();
    store.replace_parent_edges(a, &Parents::Under(vec![p]), Placement::End);
    assert!(store.list_child_edges(None).is_empty());
    store.replace_parent_edges(a, &Parents::TopLevel, Placement::End);
    assert_eq!(store.list_child_edges(None), vec![a]);
}

#[test]
fn in_memory_store_replace_parent_edges_should_reject_second_null_edge() {
    let mut store = InMemoryStore::new();
    let a = TaskId::new();
    for _ in 0..3 {
        store.replace_parent_edges(a, &Parents::TopLevel, Placement::End);
    }
    assert_eq!(store.list_child_edges(None), vec![a]);
}

#[test]
fn in_memory_store_list_child_edges_none_should_return_roots_in_position_order() {
    let mut store = InMemoryStore::new();
    let (a, b, c) = (TaskId::new(), TaskId::new(), TaskId::new());
    for id in [b, c, a] {
        store.replace_parent_edges(id, &Parents::TopLevel, Placement::End);
    }
    assert_eq!(store.list_child_edges(None), vec![b, c, a]);
}

#[test]
fn in_memory_store_replace_parent_edges_should_replace_whole_set_atomically() {
    let mut store = InMemoryStore::new();
    let (a, b, c, child) = (TaskId::new(), TaskId::new(), TaskId::new(), TaskId::new());
    store.replace_parent_edges(child, &Parents::Under(vec![a, b]), Placement::End);

    store.replace_parent_edges(child, &Parents::Under(vec![c]), Placement::End);

    let edges = store.list_parent_edges(child);
    assert_eq!(edges, vec![c]);
    assert!(store.list_child_edges(Some(a)).is_empty());

    store.replace_parent_edges(child, &Parents::TopLevel, Placement::End);
    let edges = store.list_parent_edges(child);
    assert!(edges.is_empty());
}

#[test]
fn in_memory_store_replace_parent_edges_should_keep_edges_it_was_asked_to_keep() {
    let mut store = InMemoryStore::new();
    let (a, b, c, child) = (TaskId::new(), TaskId::new(), TaskId::new(), TaskId::new());
    store.replace_parent_edges(child, &Parents::Under(vec![a, b]), Placement::End);

    store.replace_parent_edges(child, &Parents::Under(vec![b, c, b]), Placement::End);

    let mut edges = store.list_parent_edges(child);
    edges.sort_by_key(|id| id.as_u128());
    let mut expected = vec![b, c];
    expected.sort_by_key(|id| id.as_u128());
    assert_eq!(edges, expected);
    assert_eq!(store.list_child_edges(Some(b)), vec![child]);
}

#[test]
fn replace_parent_edges_then_list_child_edges_returns_child() {
    let mut store = InMemoryStore::new();
    let parent = TaskId::new();
    let child = TaskId::new();

    store.replace_parent_edges(child, &Parents::Under(vec![parent]), Placement::End);

    let edges = store.list_child_edges(Some(parent));
    assert_eq!(edges, vec![child]);
}

#[test]
fn get_task_should_not_return_a_soft_deleted_task() {
    let mut store = InMemoryStore::new();
    let mut task = sample_task("task", TaskStatus::Incomplete);
    task.deleted_at = Some(Timestamp::now());

    store.put_task(&task);

    let fetched = store.get_task(task.id);
    assert_eq!(fetched, None);
}

#[test]
fn get_task_including_deleted_should_return_a_soft_deleted_task() {
    let mut store = InMemoryStore::new();
    let mut task = sample_task("task", TaskStatus::Incomplete);
    task.deleted_at = Some(Timestamp::now());

    store.put_task(&task);

    let fetched = store.get_task_including_deleted(task.id);
    assert_eq!(fetched, Some(task));
}

#[test]
fn list_tasks_should_exclude_soft_deleted_by_default() {
    let mut store = InMemoryStore::new();
    let live = sample_task("task", TaskStatus::Incomplete);
    let mut deleted = sample_task("task", TaskStatus::Incomplete);
    deleted.deleted_at = Some(Timestamp::now());

    store.put_task(&live);
    store.put_task(&deleted);

    let listed = store.list_tasks(&TreeFilter::default());
    assert_eq!(listed, vec![live]);
}

#[test]
fn list_tasks_should_include_soft_deleted_when_filter_requests_it() {
    let mut store = InMemoryStore::new();
    let live = sample_task("task", TaskStatus::Incomplete);
    let mut deleted = sample_task("task", TaskStatus::Incomplete);
    deleted.deleted_at = Some(Timestamp::now());

    store.put_task(&live);
    store.put_task(&deleted);

    let filter = TreeFilter {
        include_deleted: true,
        ..TreeFilter::default()
    };
    let mut listed = store.list_tasks(&filter);
    listed.sort_by_key(|t| t.id.as_u128());
    let mut expected = vec![live, deleted];
    expected.sort_by_key(|t| t.id.as_u128());
    assert_eq!(listed, expected);
}

#[test]
fn list_child_edges_for_task_with_no_children_returns_empty() {
    let store = InMemoryStore::new();
    let edges = store.list_child_edges(Some(TaskId::new()));
    assert!(edges.is_empty());
}

#[test]
fn in_memory_store_put_task_type_then_get_task_types_returns_it() {
    let mut store = InMemoryStore::new();
    let task_type = TaskType {
        key: "goal".to_owned(),
        label: "Goal".to_owned(),
        color: None,
        sort_order: 0,
    };

    store.put_task_type(&task_type);

    let listed = store.get_task_types();
    assert_eq!(listed, vec![task_type]);
}

#[test]
fn put_user_then_get_user_returns_same_user() {
    let mut store = InMemoryStore::new();
    let user = User {
        id: UserId::new(),
        name: "Ada".to_owned(),
    };

    store.put_user(&user);

    let fetched = store.get_user(user.id);
    assert_eq!(fetched, Some(user));
}

#[test]
fn get_user_for_unknown_id_returns_none() {
    let store = InMemoryStore::new();
    let fetched = store.get_user(UserId::new());
    assert_eq!(fetched, None);
}

#[test]
fn list_users_returns_all_put_users() {
    let mut store = InMemoryStore::new();
    let a = User {
        id: UserId::new(),
        name: "Ada".to_owned(),
    };
    let b = User {
        id: UserId::new(),
        name: "Grace".to_owned(),
    };

    store.put_user(&a);
    store.put_user(&b);

    let mut listed = store.list_users();
    listed.sort_by_key(|u| u.id.as_u128());
    let mut expected = vec![a, b];
    expected.sort_by_key(|u| u.id.as_u128());
    assert_eq!(listed, expected);
}

fn ids(n: usize) -> Vec<TaskId> {
    (0..n).map(|_| TaskId::new()).collect()
}

fn append(store: &mut InMemoryStore, child: TaskId, parents: &Parents, at: Placement) {
    store.replace_parent_edges(child, parents, at);
}

#[test]
fn in_memory_store_replace_parent_edges_should_keep_position_of_retained_parents() {
    let mut store = InMemoryStore::new();
    let v = ids(5);
    let (p, q, y, child, z) = (v[0], v[1], v[2], v[3], v[4]);
    append(&mut store, y, &Parents::Under(vec![p]), Placement::End);
    append(&mut store, child, &Parents::Under(vec![p]), Placement::End);
    append(&mut store, z, &Parents::Under(vec![p]), Placement::End);
    append(&mut store, child, &Parents::Under(vec![p, q]), Placement::After(z));

    let under_p = store.list_child_edges(Some(p));
    let under_q = store.list_child_edges(Some(q));

    assert_eq!(under_p, [y, child, z]);
    assert_eq!(under_q, [child]);
}

#[test]
fn in_memory_store_replace_parent_edges_should_place_after_given_sibling() {
    let mut store = InMemoryStore::new();
    let v = ids(7);
    let (p, q, a, b, c, child, other) = (v[0], v[1], v[2], v[3], v[4], v[5], v[6]);
    append(&mut store, a, &Parents::Under(vec![p]), Placement::End);
    append(&mut store, b, &Parents::Under(vec![p]), Placement::End);
    append(&mut store, c, &Parents::Under(vec![q]), Placement::End);
    append(&mut store, child, &Parents::Under(vec![p, q]), Placement::After(a));
    // Sibling not under the parent: falls back to End.
    append(&mut store, other, &Parents::Under(vec![p]), Placement::After(c));

    let under_p = store.list_child_edges(Some(p));
    let under_q = store.list_child_edges(Some(q));

    assert_eq!(under_p, [a, child, b, other]);
    assert_eq!(under_q, [c, child]);
}

#[test]
fn in_memory_store_replace_parent_edges_should_place_top_level_after_given_root() {
    let mut store = InMemoryStore::new();
    let v = ids(3);
    let (a, b, child) = (v[0], v[1], v[2]);
    append(&mut store, a, &Parents::TopLevel, Placement::End);
    append(&mut store, b, &Parents::TopLevel, Placement::End);
    append(&mut store, child, &Parents::TopLevel, Placement::After(a));

    let roots = store.list_child_edges(None);

    assert_eq!(roots, [a, child, b]);
}

#[test]
fn in_memory_store_list_all_child_edges_should_return_every_parent_in_position_order() {
    let mut store = InMemoryStore::new();
    let v = ids(4);
    let (p, a, b, r) = (v[0], v[1], v[2], v[3]);
    append(&mut store, p, &Parents::TopLevel, Placement::End);
    append(&mut store, a, &Parents::Under(vec![p]), Placement::End);
    append(&mut store, b, &Parents::Under(vec![p]), Placement::End);
    append(&mut store, r, &Parents::TopLevel, Placement::End);

    let all = store.list_all_child_edges();
    let of = |parent| -> Vec<TaskId> {
        all.iter()
            .filter(|(p, _)| *p == parent)
            .map(|&(_, c)| c)
            .collect()
    };

    assert_eq!(of(None), [p, r]);
    assert_eq!(of(Some(p)), [a, b]);
}

#[test]
fn in_memory_store_swap_child_positions_should_swap_only_the_given_parent() {
    let mut store = InMemoryStore::new();
    let v = ids(5);
    let (p, q, a, b, c) = (v[0], v[1], v[2], v[3], v[4]);
    append(&mut store, a, &Parents::Under(vec![p, q]), Placement::End);
    append(&mut store, b, &Parents::Under(vec![p, q]), Placement::End);
    append(&mut store, c, &Parents::Under(vec![p]), Placement::End);
    store.swap_child_positions(Some(p), a, c);

    let under_p = store.list_child_edges(Some(p));
    let under_q = store.list_child_edges(Some(q));

    assert_eq!(under_p, [c, b, a]);
    assert_eq!(under_q, [a, b]);
}

#[test]
fn in_memory_store_swap_child_positions_should_ignore_task_not_under_parent() {
    let mut store = InMemoryStore::new();
    let v = ids(5);
    let (p, a, b) = (v[0], v[1], v[2]);
    append(&mut store, a, &Parents::Under(vec![p]), Placement::End);
    store.swap_child_positions(Some(p), a, b);

    let under_p = store.list_child_edges(Some(p));

    assert_eq!(under_p, [a]);
}
