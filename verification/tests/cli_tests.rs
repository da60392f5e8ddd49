use bala::cli::{
    choose_delete_mode, finish_task_delete, format_task_line, format_type_line, is_affirmative,
    run_task_add, run_task_complete, run_task_delete, run_task_edit, run_task_ls, run_task_mv,
    run_task_command, run_task_reopen, run_task_restore, run_type_command, run_user_command, AddArgs, CliError,
    CompleteArgs, DeleteArgs, EditArgs, LsArgs, MvArgs, ReopenArgs, RestoreArgs, TaskOutput,
    TaskCommands, TypeCommands, TypeSetArgs, UserAddArgs, UserCommands,
};
use bala::facade::Core;
use bala::ids::{Date, TaskId, UserId};
use bala::model::{DeleteMode, NewTask, TaskType};
use bala::store::InMemoryStore;

fn new_core() -> Core {
    Core::new(InMemoryStore::new()).unwrap()
}

fn lines_of(r: Result<TaskOutput, CliError>) -> Vec<String> {
    match r {
        Ok(TaskOutput::Lines(lines)) => lines,
        Ok(TaskOutput::ConfirmDelete { prompt, .. }) => panic!("unexpected confirmation: {prompt}"),
        Err(e) => panic!("command failed: {}", e.message()),
    }
}

fn ls(core: &Core) -> String {
    lines_of(run_task_ls(core, &LsArgs { type_key: None })).join("\n")
}

fn ls_type(core: &Core, key: &str) -> String {
    lines_of(run_task_ls(core, &LsArgs { type_key: Some(key.to_owned()) })).join("\n")
}

fn add_args(title: &str) -> AddArgs {
    AddArgs {
        title: title.to_owned(),
        description: None,
        parent: Vec::new(),
        start: None,
        due: None,
        assignee: None,
        inherit: false,
        type_key: None,
    }
}

fn add_task(core: &mut Core, args: AddArgs) -> TaskId {
    let lines = lines_of(run_task_add(core, args));
    assert_eq!(lines.len(), 1);
    TaskId::parse_text(lines[0].trim()).expect("the id of the new task")
}

fn add_user(core: &mut Core, name: &str) -> UserId {
    let lines = run_user_command(core, UserCommands::Add(UserAddArgs { name: name.to_owned() })).unwrap();
    UserId::parse_text(lines[0].trim()).expect("the id of the new user")
}

fn edit_args(id: TaskId) -> EditArgs {
    EditArgs {
        id,
        title: None,
        description: None,
        clear_description: false,
        start: None,
        clear_start: false,
        due: None,
        clear_due: false,
        assignee: None,
        clear_assignee: false,
        type_key: None,
    }
}

fn delete_args(id: TaskId) -> DeleteArgs {
    DeleteArgs { id, yes: true, cascade: false, promote_children: false }
}

fn indent(line: &str) -> usize {
    line.len() - line.trim_start().len()
}

fn line_with<'a>(text: &'a str, needle: &str) -> &'a str {
    text.lines().find(|line| line.contains(needle)).expect("line present")
}

/// Runs `task delete`, answering a confirmation prompt with `answer`.
fn delete_answering(core: &mut Core, args: &DeleteArgs, answer: &str) -> Result<Vec<String>, CliError> {
    match run_task_delete(core, args)? {
        TaskOutput::Lines(lines) => Ok(lines),
        TaskOutput::ConfirmDelete { id, mode, .. } => {
            if is_affirmative(answer) {
                finish_task_delete(core, id, mode)
            } else {
                Ok(Vec::new())
            }
        }
    }
}

#[test]
fn run_task_add_with_inherit_should_copy_dates_from_first_parent() {
    let mut core = new_core();
    let start = Date::from_ymd(2026, 1, 5).unwrap();
    let due = Date::from_ymd(2026, 1, 20).unwrap();
    let parent = core
        .create_task(NewTask {
            title: "Parent".to_owned(),
            description: None,
            parent_ids: Vec::new(),
            type_key: None,
            start_date: Some(start),
            due_date: Some(due),
            assignee_id: None,
        })
        .unwrap();

    lines_of(run_task_add(
        &mut core,
        AddArgs {
            title: "Child".to_owned(),
            description: None,
            parent: vec![parent.id],
            start: None,
            due: None,
            assignee: None,
            inherit: true,
            type_key: None,
        },
    ));

    let children = core.list_children(parent.id).unwrap();
    assert_eq!(children.len(), 1);
    assert_eq!(children[0].start_date, Some(start));
    assert_eq!(children[0].due_date, Some(due));
}

#[test]
fn task_add_with_title_only_should_succeed_and_print_new_task_id() {
    let mut core = new_core();
    let lines = lines_of(run_task_add(&mut core, add_args("Write plan")));
    assert_eq!(lines.len(), 1);
    assert!(lines[0].contains('-'));
    assert!(TaskId::parse_text(&lines[0]).is_some());
}

#[test]
fn task_add_with_empty_title_should_fail_with_nonzero_exit() {
    let mut core = new_core();
    assert!(run_task_add(&mut core, add_args("")).is_err());
}

#[test]
fn task_add_then_task_ls_should_show_the_new_task() {
    let mut core = new_core();
    add_task(&mut core, add_args("Write plan"));
    assert!(ls(&core).contains("Write plan"));
}

#[test]
fn task_add_with_parent_should_nest_under_it_in_ls_output() {
    let mut core = new_core();
    let parent_id = add_task(&mut core, add_args("Parent task"));
    add_task(&mut core, AddArgs { parent: vec![parent_id], ..add_args("Child task") });

    let text = ls(&core);
    let parent_line = line_with(&text, "Parent task");
    let child_line = line_with(&text, "Child task");
    assert!(indent(child_line) > indent(parent_line));
}

#[test]
fn user_add_then_ls_shows_created_user() {
    let mut core = new_core();
    add_user(&mut core, "Ada");
    let lines = run_user_command(&mut core, UserCommands::Ls).unwrap();
    assert!(lines.join("\n").contains("Ada"));
}

#[test]
fn task_add_with_assignee_sets_assignee() {
    let mut core = new_core();
    let user_id = add_user(&mut core, "Ada");
    add_task(&mut core, AddArgs { assignee: Some(user_id), ..add_args("Ship it") });

    let text = ls(&core);
    assert!(text.contains("Ship it"));
    assert!(text.contains("Ada"));
    assert!(!text.contains(&user_id.to_text()));
}

#[test]
fn task_add_with_unknown_assignee_fails_with_clear_error() {
    let mut core = new_core();
    let unknown = UserId::new();
    let result = run_task_add(&mut core, AddArgs { assignee: Some(unknown), ..add_args("Ship it") });
    match result {
        Err(e) => assert!(e.message().contains("unknown user")),
        Ok(_) => panic!("expected a failure"),
    }
}

#[test]
fn task_edit_should_update_title_and_show_in_ls() {
    let mut core = new_core();
    let id = add_task(&mut core, add_args("Old title"));
    lines_of(run_task_edit(&mut core, EditArgs { title: Some("New title".to_owned()), ..edit_args(id) }));
    let text = ls(&core);
    assert!(text.contains("New title"));
    assert!(!text.contains("Old title"));
}

#[test]
fn task_edit_should_clear_description() {
    let mut core = new_core();
    let id = add_task(
        &mut core,
        AddArgs { description: Some("Some desc".to_owned()), ..add_args("Task with desc") },
    );
    lines_of(run_task_edit(&mut core, EditArgs { clear_description: true, ..edit_args(id) }));
    let task = core.get_task(id).unwrap().unwrap();
    assert_eq!(task.description, None);
}

#[test]
fn task_edit_with_empty_title_should_fail_with_nonzero_exit() {
    let mut core = new_core();
    let id = add_task(&mut core, add_args("Has a title"));
    assert!(run_task_edit(&mut core, EditArgs { title: Some(String::new()), ..edit_args(id) }).is_err());
}

#[test]
fn task_edit_with_unknown_task_id_should_fail() {
    let mut core = new_core();
    let result = run_task_edit(
        &mut core,
        EditArgs { title: Some("Doesn't matter".to_owned()), ..edit_args(TaskId::new()) },
    );
    assert!(result.is_err());
}

#[test]
fn task_edit_should_set_and_clear_assignee() {
    let mut core = new_core();
    let user_id = add_user(&mut core, "Ada");
    let id = add_task(&mut core, add_args("Ship it"));

    lines_of(run_task_edit(&mut core, EditArgs { assignee: Some(user_id), ..edit_args(id) }));
    assert!(ls(&core).contains("Ada"));

    lines_of(run_task_edit(&mut core, EditArgs { clear_assignee: true, ..edit_args(id) }));
    assert!(!ls(&core).contains("Ada"));
}

#[test]
fn task_delete_leaf_task_with_yes_flag_should_succeed_and_remove_from_ls() {
    let mut core = new_core();
    let id = add_task(&mut core, add_args("Leaf task"));
    delete_answering(&mut core, &delete_args(id), "").unwrap();
    assert!(!ls(&core).contains("Leaf task"));
}

#[test]
fn task_delete_without_yes_and_declined_confirmation_should_not_delete() {
    let mut core = new_core();
    let id = add_task(&mut core, add_args("Leaf task"));
    let args = DeleteArgs { yes: false, ..delete_args(id) };
    let out = run_task_delete(&mut core, &args).unwrap();
    assert!(matches!(out, TaskOutput::ConfirmDelete { .. }));
    delete_answering(&mut core, &args, "n\n").unwrap();
    assert!(ls(&core).contains("Leaf task"));
}

#[test]
fn task_delete_with_unknown_task_id_should_fail() {
    let mut core = new_core();
    assert!(run_task_delete(&mut core, &delete_args(TaskId::new())).is_err());
}

#[test]
fn task_delete_task_with_subtasks_and_no_mode_flag_should_fail_with_warning() {
    let mut core = new_core();
    let parent_id = add_task(&mut core, add_args("Parent task"));
    add_task(&mut core, AddArgs { parent: vec![parent_id], ..add_args("Child task") });
    match run_task_delete(&mut core, &delete_args(parent_id)) {
        Err(e) => assert!(e.message().contains("Child task")),
        Ok(_) => panic!("expected a failure"),
    }
}

#[test]
fn task_delete_task_with_subtasks_and_cascade_should_remove_child_from_ls_too() {
    let mut core = new_core();
    let parent_id = add_task(&mut core, add_args("Parent task"));
    add_task(&mut core, AddArgs { parent: vec![parent_id], ..add_args("Child task") });
    delete_answering(&mut core, &DeleteArgs { cascade: true, ..delete_args(parent_id) }, "").unwrap();
    let text = ls(&core);
    assert!(!text.contains("Parent task"));
    assert!(!text.contains("Child task"));
}

#[test]
fn task_delete_task_with_subtasks_and_promote_children_should_keep_child_visible() {
    let mut core = new_core();
    let parent_id = add_task(&mut core, add_args("Parent task"));
    add_task(&mut core, AddArgs { parent: vec![parent_id], ..add_args("Child task") });
    delete_answering(&mut core, &DeleteArgs { promote_children: true, ..delete_args(parent_id) }, "").unwrap();
    let text = ls(&core);
    assert!(!text.contains("Parent task"));
    assert!(text.contains("Child task"));
}

#[test]
fn task_restore_should_bring_task_back_into_ls() {
    let mut core = new_core();
    let id = add_task(&mut core, add_args("Leaf task"));
    delete_answering(&mut core, &delete_args(id), "").unwrap();
    lines_of(run_task_restore(&mut core, &RestoreArgs { id }));
    assert!(ls(&core).contains("Leaf task"));
}

#[test]
fn task_restore_with_unknown_id_should_fail() {
    let mut core = new_core();
    assert!(run_task_restore(&mut core, &RestoreArgs { id: TaskId::new() }).is_err());
}

#[test]
fn task_complete_leaf_task_should_show_as_complete_in_ls() {
    let mut core = new_core();
    let id = add_task(&mut core, add_args("Leaf task"));
    lines_of(run_task_complete(&mut core, &CompleteArgs { id, cascade: false }));
    let text = ls(&core);
    assert!(text.contains("[x]"));
    assert!(text.contains("Leaf task"));
}

#[test]
fn task_complete_with_unknown_task_id_should_fail() {
    let mut core = new_core();
    assert!(run_task_complete(&mut core, &CompleteArgs { id: TaskId::new(), cascade: false }).is_err());
}

#[test]
fn task_complete_task_with_incomplete_children_should_fail_with_warning() {
    let mut core = new_core();
    let parent_id = add_task(&mut core, add_args("Parent task"));
    add_task(&mut core, AddArgs { parent: vec![parent_id], ..add_args("Child task") });
    match run_task_complete(&mut core, &CompleteArgs { id: parent_id, cascade: false }) {
        Err(e) => {
            let m = e.message();
            assert!(m.contains("incomplete children"));
            assert!(m.contains("cascade"));
        }
        Ok(_) => panic!("expected a failure"),
    }
}

#[test]
fn task_complete_task_with_incomplete_children_and_cascade_should_complete_all() {
    let mut core = new_core();
    let parent_id = add_task(&mut core, add_args("Parent task"));
    add_task(&mut core, AddArgs { parent: vec![parent_id], ..add_args("Child task") });
    lines_of(run_task_complete(&mut core, &CompleteArgs { id: parent_id, cascade: true }));
    let text = ls(&core);
    assert!(line_with(&text, "Parent task").contains("[x]"));
    assert!(line_with(&text, "Child task").contains("[x]"));
}

#[test]
fn task_reopen_completed_task_should_show_as_incomplete_in_ls() {
    let mut core = new_core();
    let id = add_task(&mut core, add_args("Leaf task"));
    lines_of(run_task_complete(&mut core, &CompleteArgs { id, cascade: false }));
    lines_of(run_task_reopen(&mut core, &ReopenArgs { id }));
    let text = ls(&core);
    assert!(text.contains("[ ]"));
    assert!(text.contains("Leaf task"));
}

#[test]
fn task_reopen_with_unknown_task_id_should_fail() {
    let mut core = new_core();
    assert!(run_task_reopen(&mut core, &ReopenArgs { id: TaskId::new() }).is_err());
}

#[test]
fn task_reopen_already_incomplete_task_should_succeed() {
    let mut core = new_core();
    let id = add_task(&mut core, add_args("Never completed"));
    let out = lines_of(run_task_reopen(&mut core, &ReopenArgs { id })).join("\n");
    assert!(out.contains("[ ]"));
    assert!(out.contains("Never completed"));
}

#[test]
fn task_ls_should_show_incomplete_marker_for_a_new_task() {
    let mut core = new_core();
    add_task(&mut core, add_args("Fresh task"));
    let text = ls(&core);
    assert!(text.contains("[ ]"));
    assert!(text.contains("Fresh task"));
}

#[test]
fn task_mv_should_reparent_task_and_show_new_parent_in_ls() {
    let mut core = new_core();
    let movable = add_task(&mut core, add_args("Task A"));
    let new_parent = add_task(&mut core, add_args("Task B"));
    lines_of(run_task_mv(&mut core, &MvArgs { id: movable, parents: vec![new_parent] }));
    let text = ls(&core);
    assert!(indent(line_with(&text, "Task A")) > indent(line_with(&text, "Task B")));
}

#[test]
fn task_mv_with_empty_parents_should_promote_to_top_level() {
    let mut core = new_core();
    let parent_id = add_task(&mut core, add_args("Parent task"));
    let child_id = add_task(&mut core, AddArgs { parent: vec![parent_id], ..add_args("Child task") });
    lines_of(run_task_mv(&mut core, &MvArgs { id: child_id, parents: Vec::new() }));
    let text = ls(&core);
    assert_eq!(indent(line_with(&text, "Child task")), 0);
}

#[test]
fn task_add_with_inherit_should_copy_assignee_and_dates_from_first_parent() {
    let mut core = new_core();
    let user_id = add_user(&mut core, "Ada");
    let parent_id = add_task(
        &mut core,
        AddArgs {
            assignee: Some(user_id),
            start: Date::from_ymd(2026, 1, 1),
            due: Date::from_ymd(2026, 1, 31),
            ..add_args("Parent task")
        },
    );
    add_task(&mut core, AddArgs { parent: vec![parent_id], inherit: true, ..add_args("Child task") });

    let text = ls(&core);
    let child_line = line_with(&text, "Child task");
    assert!(child_line.contains("Ada"));
    assert!(!text.contains(&user_id.to_text()));
}

#[test]
fn task_add_with_inherit_and_explicit_assignee_should_prefer_explicit_value() {
    let mut core = new_core();
    let parent_user = add_user(&mut core, "Ada");
    let child_user = add_user(&mut core, "Grace");
    let parent_id = add_task(&mut core, AddArgs { assignee: Some(parent_user), ..add_args("Parent task") });
    add_task(
        &mut core,
        AddArgs {
            parent: vec![parent_id],
            inherit: true,
            assignee: Some(child_user),
            ..add_args("Child task")
        },
    );
    let text = ls(&core);
    let child_line = line_with(&text, "Child task");
    assert!(child_line.contains("Grace") && !child_line.contains("Ada"));
}

#[test]
fn task_add_with_inherit_should_leave_fields_unset_when_parent_has_none() {
    let mut core = new_core();
    let parent_id = add_task(&mut core, add_args("Parent task"));
    add_task(&mut core, AddArgs { parent: vec![parent_id], inherit: true, ..add_args("Child task") });
    let text = ls(&core);
    assert!(!line_with(&text, "Child task").contains("assigned:"));
}

#[test]
fn task_mv_with_circular_parent_should_fail_with_nonzero_exit() {
    let mut core = new_core();
    let id = add_task(&mut core, add_args("Task A"));
    assert!(run_task_mv(&mut core, &MvArgs { id, parents: vec![id] }).is_err());
}

#[test]
fn task_add_with_unknown_type_should_fail_with_nonzero_exit() {
    let mut core = new_core();
    let result = run_task_add(
        &mut core,
        AddArgs { type_key: Some("bogus-nonexistent-type".to_owned()), ..add_args("Ship it") },
    );
    assert!(result.is_err());
}

#[test]
fn task_ls_with_type_filter_should_show_only_tasks_of_that_type() {
    let mut core = new_core();
    add_task(&mut core, add_args("Typed task"));
    assert!(ls_type(&core, "task").contains("Typed task"));
}

#[test]
fn task_ls_with_type_filter_for_unused_type_should_show_no_tasks() {
    let mut core = new_core();
    add_task(&mut core, add_args("Some task"));
    assert!(!ls_type(&core, "nonexistent").contains("Some task"));
}

#[test]
fn task_ls_should_show_each_task_s_type() {
    let mut core = new_core();
    run_type_command(
        &mut core,
        TypeCommands::SetType(TypeSetArgs {
            key: "milestone".to_owned(),
            label: "Milestone".to_owned(),
            color: None,
            sort_order: None,
        }),
    )
    .unwrap();
    add_task(&mut core, AddArgs { type_key: Some("milestone".to_owned()), ..add_args("Ship v1") });
    assert!(ls(&core).contains("milestone"));
}

#[test]
fn type_ls_should_include_the_seeded_default_task_type() {
    let mut core = new_core();
    add_task(&mut core, add_args("Trigger seeding"));
    let lines = run_type_command(&mut core, TypeCommands::Ls).unwrap();
    assert!(lines.join("\n").contains("task"));
}

#[test]
fn type_set_should_create_a_new_type_and_type_ls_should_include_it() {
    let mut core = new_core();
    run_type_command(
        &mut core,
        TypeCommands::SetType(TypeSetArgs {
            key: "goal".to_owned(),
            label: "Goal".to_owned(),
            color: None,
            sort_order: None,
        }),
    )
    .unwrap();
    let text = run_type_command(&mut core, TypeCommands::Ls).unwrap().join("\n");
    assert!(text.contains("goal"));
    assert!(text.contains("Goal"));
}

#[test]
fn type_set_should_update_label_without_losing_previously_set_color() {
    let mut core = new_core();
    run_type_command(
        &mut core,
        TypeCommands::SetType(TypeSetArgs {
            key: "goal".to_owned(),
            label: "Goal".to_owned(),
            color: Some("blue".to_owned()),
            sort_order: None,
        }),
    )
    .unwrap();
    run_type_command(
        &mut core,
        TypeCommands::SetType(TypeSetArgs {
            key: "goal".to_owned(),
            label: "Goal Updated".to_owned(),
            color: None,
            sort_order: None,
        }),
    )
    .unwrap();
    let text = run_type_command(&mut core, TypeCommands::Ls).unwrap().join("\n");
    assert!(text.contains("Goal Updated"));
    assert!(text.contains("blue"));
}

#[test]
fn task_add_with_type_set_by_type_set_should_succeed() {
    let mut core = new_core();
    run_type_command(
        &mut core,
        TypeCommands::SetType(TypeSetArgs {
            key: "goal".to_owned(),
            label: "Goal".to_owned(),
            color: None,
            sort_order: None,
        }),
    )
    .unwrap();
    lines_of(run_task_add(&mut core, AddArgs { type_key: Some("goal".to_owned()), ..add_args("x") }));
}

#[test]
fn format_task_line_shows_marker_id_title_type_and_assignee() {
    let mut core = new_core();
    let user = core.create_user("Ada".to_owned()).unwrap();
    let task = core
        .create_task(NewTask {
            title: "Write docs".to_owned(),
            description: None,
            parent_ids: Vec::new(),
            type_key: None,
            start_date: None,
            due_date: None,
            assignee_id: Some(user.id),
        })
        .unwrap();
    let users = core.list_users().unwrap();
    assert_eq!(
        format_task_line(&task, &users),
        format!("[ ] {} Write docs (type: task) (assigned: Ada)", task.id.to_text())
    );
}

#[test]
fn format_type_line_shows_color_only_when_set() {
    let plain = TaskType { key: "goal".to_owned(), label: "Goal".to_owned(), color: None, sort_order: 2 };
    assert_eq!(format_type_line(&plain), "goal Goal sort_order=2");
    let colored = TaskType { color: Some("blue".to_owned()), ..plain };
    assert_eq!(format_type_line(&colored), "goal Goal color=blue sort_order=2");
}

#[test]
fn is_affirmative_accepts_y_and_yes_in_any_case_only() {
    assert!(is_affirmative("y"));
    assert!(is_affirmative(" YES \n"));
    assert!(is_affirmative("Yes"));
    assert!(!is_affirmative("n"));
    assert!(!is_affirmative("yep"));
    assert!(!is_affirmative(""));
}

#[test]
fn choose_delete_mode_asks_only_for_a_task_with_children_and_no_flag() {
    let id = TaskId::new();
    let plain = DeleteArgs { id, yes: true, cascade: false, promote_children: false };
    assert_eq!(choose_delete_mode(&plain, false), Some(DeleteMode::Subtree));
    assert_eq!(choose_delete_mode(&plain, true), None);
    let cascade = DeleteArgs { cascade: true, ..plain };
    assert_eq!(choose_delete_mode(&cascade, true), Some(DeleteMode::Subtree));
    let promote = DeleteArgs { id, yes: true, cascade: false, promote_children: true };
    assert_eq!(choose_delete_mode(&promote, true), Some(DeleteMode::PromoteChildren));
}

#[test]
fn task_command_add_then_ls_should_list_the_new_task() {
    let mut core = new_core();
    let added = lines_of(run_task_command(&mut core, TaskCommands::Add(add_args("Write report"))));
    assert_eq!(added.len(), 1);
    let listed = lines_of(run_task_command(&mut core, TaskCommands::Ls(LsArgs { type_key: None })));
    assert_eq!(listed, vec![format!("[ ] {} Write report (type: task)", added[0])]);
}

#[test]
fn task_command_delete_without_yes_should_ask_before_deleting() {
    let mut core = new_core();
    let id = add_task(&mut core, add_args("Leaf"));
    let out = run_task_command(
        &mut core,
        TaskCommands::Delete(DeleteArgs { id, yes: false, cascade: false, promote_children: false }),
    );
    match out {
        Ok(TaskOutput::ConfirmDelete { prompt, id: asked, mode }) => {
            assert_eq!(prompt, "Delete task \"Leaf\"? [y/N] ");
            assert_eq!(asked, id);
            assert_eq!(mode, DeleteMode::Subtree);
        }
        _ => panic!("expected a confirmation"),
    }
    assert!(ls(&core).contains("Leaf"));
}
