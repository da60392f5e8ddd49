use std::ops::ControlFlow;

use bala::facade::Core;
use bala::ids::TaskId;
use bala::keymap::Action;
use bala::model::{Field, Progress, Task, TaskStatus, TaskType};
use bala::mode::{EditableField, Mode, PendingAction};
use bala::render::{task_rows, TaskRow};
use bala::store::InMemoryStore;
use bala::tui_app::{apply_action, App};

fn row(title: &str) -> TaskRow {
    TaskRow {
        id: TaskId::new(),
        title: title.to_owned(),
        type_label: "task".to_owned(),
        status: TaskStatus::Incomplete,
        assignee_name: None,
        depth: 0,
        has_children: false,
        collapsed: false,
        direct_summary: None,
    }
}

fn task(id: TaskId, parent_ids: Vec<TaskId>) -> Task {
    let now = bala::ids::Timestamp::now();
    Task {
        id,
        title: "t".to_owned(),
        description: None,
        parent_ids,
        type_key: "task".to_owned(),
        status: TaskStatus::Incomplete,
        progress: Progress { complete: 0, total: 1 },
        start_date: None,
        due_date: None,
        assignee_id: None,
        created_at: now,
        updated_at: now,
        deleted_at: None,
        completed_at: None,
    }
}

#[test]
fn help_opened_mid_insert_and_closed_returns_to_the_same_insert() {
    let mut core = Core::new(InMemoryStore::new()).unwrap();
    let mut app = App::new(vec![row("First")]);
    let _ = apply_action(&mut app, &mut core, Action::StartInsertNewTitle);
    let _ = apply_action(&mut app, &mut core, Action::InsertChar('a'));
    let before = app.mode().clone();

    let _ = apply_action(&mut app, &mut core, Action::OpenHelp);
    assert!(matches!(app.mode(), Mode::Help { .. }));
    let _ = apply_action(&mut app, &mut core, Action::CloseHelp);

    assert_eq!(app.mode(), &before);
    assert_eq!(
        app.mode(),
        &Mode::Insert { field: EditableField::NewTitle, buffer: "a".to_owned() }
    );
}

#[test]
fn dd_asks_to_delete_the_selected_task() {
    let mut core = Core::new(InMemoryStore::new()).unwrap();
    let first = row("First");
    let id = first.id;
    let mut app = App::new(vec![first]);

    let _ = apply_action(&mut app, &mut core, Action::DKeyPressed);
    let _ = apply_action(&mut app, &mut core, Action::DKeyPressed);

    assert_eq!(
        app.mode(),
        &Mode::Confirm { prompt: "Delete \"First\"? (y/n)".to_owned(), action: PendingAction::Delete(id) }
    );
}

#[test]
fn d_after_another_action_only_waits_for_the_next_d() {
    let mut core = Core::new(InMemoryStore::new()).unwrap();
    let mut app = App::new(vec![row("First"), row("Second")]);

    let _ = apply_action(&mut app, &mut core, Action::DKeyPressed);
    let _ = apply_action(&mut app, &mut core, Action::MoveDown);
    let flow = apply_action(&mut app, &mut core, Action::DKeyPressed);

    assert_eq!(flow, ControlFlow::Continue(()));
    assert_eq!(app.mode(), &Mode::Normal);
    assert_eq!(app.selected_index(), Some(1));
}

#[test]
fn every_task_is_listed_even_in_a_three_cycle() {
    let (a, b, c) = (TaskId::new(), TaskId::new(), TaskId::new());
    let tasks = vec![task(a, vec![c]), task(b, vec![a]), task(c, vec![b])];

    let rows = task_rows(&tasks, &Vec::new(), &Vec::new(), &Vec::new());

    for id in [a, b, c] {
        assert!(rows.iter().any(|r| r.id == id));
    }
    assert_eq!(rows.len(), 3);
    assert_eq!(rows[0].id, a);
    assert_eq!(rows[1].id, b);
    assert_eq!(rows[2].id, c);
}

#[test]
fn a_collapsed_cycle_member_hides_the_rest_of_the_cycle() {
    let (a, b) = (TaskId::new(), TaskId::new());
    let tasks = vec![task(a, vec![b]), task(b, vec![a])];

    let rows = task_rows(&tasks, &Vec::new(), &Vec::new(), &vec![a]);

    assert_eq!(rows.len(), 1);
    assert_eq!(rows[0].id, a);
    assert!(rows[0].collapsed);
    assert_eq!(rows[0].direct_summary, Some((0, 1)));
}

fn new_task(title: &str, parent_ids: Vec<TaskId>) -> bala::model::NewTask {
    bala::model::NewTask {
        title: title.to_owned(),
        description: Some("notes".to_owned()),
        parent_ids,
        type_key: None,
        start_date: None,
        due_date: None,
        assignee_id: None,
    }
}

#[test]
fn restore_after_delete_gives_back_the_task_in_either_mode() {
    for mode in [bala::model::DeleteMode::Subtree, bala::model::DeleteMode::PromoteChildren] {
        let mut core = Core::new(InMemoryStore::new()).unwrap();
        let parent = core.create_task(new_task("Goal", vec![])).unwrap();
        let task = core.create_task(new_task("Leaf", vec![parent.id])).unwrap();

        core.delete_task(task.id, mode).unwrap();
        assert!(core.get_task(task.id).unwrap().is_none());
        let back = core.restore_task(task.id).unwrap();

        let live = core.get_task(task.id).unwrap().expect("live again");
        assert_eq!(live.title, task.title);
        assert_eq!(live.description, task.description);
        assert_eq!(live.status, task.status);
        assert_eq!(live.created_at, task.created_at);
        assert_eq!(live.deleted_at, None);
        assert_eq!(back.parent_ids, vec![parent.id]);
    }
}

#[test]
fn reopen_after_complete_gives_back_the_open_task() {
    let mut core = Core::new(InMemoryStore::new()).unwrap();
    let task = core.create_task(new_task("Leaf", vec![])).unwrap();

    core.complete_task(task.id, false).unwrap();
    assert_eq!(core.get_task(task.id).unwrap().unwrap().status, TaskStatus::Complete);
    core.reopen_task(task.id).unwrap();

    let live = core.get_task(task.id).unwrap().unwrap();
    assert_eq!(live.status, TaskStatus::Incomplete);
    assert_eq!(live.completed_at, None);
    assert_eq!(live.title, task.title);
    assert_eq!(live.created_at, task.created_at);
}

fn keep_all() -> bala::model::TaskPatch {
    bala::model::TaskPatch {
        title: Field::Keep,
        description: Field::Keep,
        start_date: Field::Keep,
        due_date: Field::Keep,
        assignee_id: Field::Keep,
        type_key: Field::Keep,
    }
}

#[test]
fn editing_a_parent_leaves_its_subtask_alone() {
    let mut core = Core::new(InMemoryStore::new()).unwrap();
    let day = |d: u32| bala::ids::Date::from_ymd(2026, 3, d).unwrap();
    let mut parent_req = new_task("Goal", vec![]);
    parent_req.due_date = Some(day(20));
    let parent = core.create_task(parent_req).unwrap();
    let mut child_req = new_task("Step", vec![parent.id]);
    child_req.start_date = Some(day(2));
    child_req.due_date = Some(day(10));
    let child = core.create_task(child_req).unwrap();

    let mut patch = keep_all();
    patch.due_date = Field::Assign(day(28));
    let changed = core.update_task(parent.id, patch).unwrap();

    assert_eq!(changed.len(), 1);
    assert_eq!(changed[0].id, parent.id);
    let after = core.get_task(child.id).unwrap().unwrap();
    assert_eq!(after, child);
}

#[test]
fn changing_only_the_type_keeps_everything_else() {
    let mut core = Core::new(InMemoryStore::new()).unwrap();
    core.upsert_task_type(TaskType {
        key: "goal".to_owned(),
        label: "Goal".to_owned(),
        color: None,
        sort_order: 1,
    })
    .unwrap();
    let task = core.create_task(new_task("Ship", vec![])).unwrap();

    let mut patch = keep_all();
    patch.type_key = Field::Assign("goal".to_owned());
    let changed = core.update_task(task.id, patch).unwrap();

    let after = &changed[0];
    assert_eq!(after.type_key, "goal");
    assert_eq!(after.title, task.title);
    assert_eq!(after.description, task.description);
    assert_eq!(after.start_date, task.start_date);
    assert_eq!(after.due_date, task.due_date);
    assert_eq!(after.parent_ids, task.parent_ids);
    assert_eq!(after.status, task.status);
}

#[test]
fn promoting_children_moves_them_to_the_deleted_tasks_parents() {
    let mut core = Core::new(InMemoryStore::new()).unwrap();
    let top = core.create_task(new_task("Top", vec![])).unwrap();
    let other = core.create_task(new_task("Other", vec![])).unwrap();
    let mid = core.create_task(new_task("Mid", vec![top.id])).unwrap();
    let child = core.create_task(new_task("Child", vec![mid.id, other.id])).unwrap();
    let root_mid = core.create_task(new_task("Root mid", vec![])).unwrap();
    let lone = core.create_task(new_task("Lone", vec![root_mid.id])).unwrap();

    core.delete_task(mid.id, bala::model::DeleteMode::PromoteChildren).unwrap();
    core.delete_task(root_mid.id, bala::model::DeleteMode::PromoteChildren).unwrap();

    let after = core.get_task(child.id).unwrap().unwrap();
    let mut parents = after.parent_ids.clone();
    parents.sort_by_key(|id| id.as_u128());
    let mut expected = vec![other.id, top.id];
    expected.sort_by_key(|id| id.as_u128());
    assert_eq!(parents, expected);
    assert!(core.get_task(mid.id).unwrap().is_none());
    let lone_after = core.get_task(lone.id).unwrap().unwrap();
    assert!(lone_after.parent_ids.is_empty());
}

#[test]
fn completing_twice_without_cascade_succeeds_and_changes_nothing() {
    let mut core = Core::new(InMemoryStore::new()).unwrap();
    let task = core.create_task(new_task("Leaf", vec![])).unwrap();
    let first = core.complete_task(task.id, false).unwrap();
    assert_eq!(first.len(), 1);
    let stored = core.get_task(task.id).unwrap().unwrap();

    let second = core.complete_task(task.id, false).unwrap();

    assert!(second.is_empty());
    assert_eq!(core.get_task(task.id).unwrap().unwrap(), stored);
}

#[test]
fn a_core_has_exactly_one_task_type_keyed_task() {
    let first = Core::new(InMemoryStore::new()).unwrap();
    let again = Core::new(first.into_store()).unwrap();
    let types = again.list_task_types().unwrap();
    let task_types: Vec<&TaskType> = types.iter().filter(|t| t.key == "task").collect();
    assert_eq!(task_types.len(), 1);
    assert_eq!(task_types[0].label, "Task");
    assert_eq!(task_types[0].color, None);
    assert_eq!(task_types[0].sort_order, 0);
}

#[test]
fn task_list_rows_show_collapse_children_and_summary() {
    let parent = task(TaskId::new(), vec![]);
    let mut done = task(TaskId::new(), vec![parent.id]);
    done.status = TaskStatus::Complete;
    let open = task(TaskId::new(), vec![parent.id]);
    let after = task(TaskId::new(), vec![]);
    let tasks = vec![parent.clone(), done, open, after.clone()];

    let rows = task_rows(&tasks, &Vec::new(), &Vec::new(), &vec![parent.id]);

    assert_eq!(rows.len(), 2);
    assert_eq!(rows[0].id, parent.id);
    assert!(rows[0].collapsed && rows[0].has_children);
    assert_eq!(rows[0].direct_summary, Some((1, 2)));
    assert_eq!(rows[1].id, after.id);
    assert!(!rows[1].collapsed && !rows[1].has_children);
    assert_eq!(rows[1].direct_summary, None);
    assert!(rows[1].depth <= rows[0].depth);
}

#[test]
fn task_list_is_laid_out_as_a_tree_even_with_a_cycle() {
    let a = TaskId::new();
    let b = TaskId::new();
    let c = TaskId::new();
    let root = TaskId::new();
    let kid = TaskId::new();
    let tasks = vec![task(a, vec![b]), task(b, vec![a]), task(c, vec![a]), task(root, vec![]), task(kid, vec![root])];

    let rows = task_rows(&tasks, &Vec::new(), &Vec::new(), &Vec::new());

    assert_eq!(rows[0].depth, 0);
    for k in 1..rows.len() {
        assert!(rows[k].depth <= rows[k - 1].depth + 1);
        if rows[k].depth > 0 {
            let m = (0..k).rev().find(|&m| rows[m].depth == rows[k].depth - 1).unwrap();
            let t = tasks.iter().find(|t| t.id == rows[k].id).unwrap();
            assert!(t.parent_ids.contains(&rows[m].id));
        }
    }
    for t in &tasks {
        assert!(rows.iter().any(|r| r.id == t.id));
    }
}
