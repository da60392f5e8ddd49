use bala::ids::TaskId;
use bala::keymap::{help_entries, key_to_action, Action, KeyCode};
use bala::mode::{DetailField, EditableField, Mode, Pane, PendingAction};

#[test]
fn key_to_action_should_map_uppercase_o_in_normal_list_to_start_insert_new_title() {
    let action = key_to_action(
        &Mode::Normal,
        Pane::List,
        DetailField::Title,
        KeyCode::Char('O'),
    );

    assert_eq!(action, Action::StartInsertNewTitle);
}

#[test]
fn key_to_action_should_map_uppercase_j_and_k_to_move_task() {
    let map = |c| {
        key_to_action(
            &Mode::Normal,
            Pane::List,
            DetailField::Title,
            KeyCode::Char(c),
        )
    };

    assert_eq!(map('J'), Action::MoveTaskDown);
    assert_eq!(map('K'), Action::MoveTaskUp);
}

#[test]
fn key_to_action_should_map_uppercase_h_and_l_to_outdent_and_indent() {
    let map = |c| {
        key_to_action(
            &Mode::Normal,
            Pane::List,
            DetailField::Title,
            KeyCode::Char(c),
        )
    };

    assert_eq!(map('L'), Action::IndentTask);
    assert_eq!(map('H'), Action::OutdentTask);
}

#[test]
fn help_overlay_should_list_indent_outdent_keys() {
    let entries = help_entries(&Mode::Normal, Pane::List, DetailField::Title);

    assert!(
        entries
            .iter()
            .any(|e| e.key == "L" && e.description == "Indent task under previous sibling")
    );
    assert!(
        entries
            .iter()
            .any(|e| e.key == "H" && e.description == "Outdent task to parent's level")
    );
}

#[test]
fn key_to_action_should_not_map_uppercase_j_in_detail_pane() {
    let action = key_to_action(
        &Mode::Normal,
        Pane::Detail,
        DetailField::Title,
        KeyCode::Char('J'),
    );

    assert_eq!(action, Action::Noop);
}

#[test]
fn help_overlay_should_list_move_keys() {
    let entries = help_entries(&Mode::Normal, Pane::List, DetailField::Title);

    assert!(
        entries
            .iter()
            .any(|e| e.key == "J" && e.description == "Move task down among siblings")
    );
    assert!(
        entries
            .iter()
            .any(|e| e.key == "K" && e.description == "Move task up among siblings")
    );
}

#[test]
fn key_to_action_should_map_t_in_normal_list_to_start_set_type() {
    let action = key_to_action(
        &Mode::Normal,
        Pane::List,
        DetailField::Title,
        KeyCode::Char('t'),
    );

    assert_eq!(action, Action::StartSetType);
}

#[test]
fn key_to_action_should_map_f_in_normal_list_to_cycle_type_filter() {
    let action = key_to_action(
        &Mode::Normal,
        Pane::List,
        DetailField::Title,
        KeyCode::Char('f'),
    );

    assert_eq!(action, Action::CycleTypeFilter);
}

#[test]
fn key_to_action_should_map_char_in_insert_mode_to_insert_char() {
    let mode = Mode::Insert {
        field: EditableField::NewTitle,
        buffer: String::new(),
    };

    let action = key_to_action(
        &mode,
        Pane::List,
        DetailField::Title,
        KeyCode::Char('x'),
    );

    assert_eq!(action, Action::InsertChar('x'));
}

#[test]
fn key_to_action_should_map_backspace_in_insert_mode_to_backspace() {
    let mode = Mode::Insert {
        field: EditableField::NewTitle,
        buffer: "abc".to_string(),
    };

    let action = key_to_action(
        &mode,
        Pane::List,
        DetailField::Title,
        KeyCode::Backspace,
    );

    assert_eq!(action, Action::Backspace);
}

#[test]
fn key_to_action_should_map_esc_in_insert_mode_to_cancel_insert() {
    let mode = Mode::Insert {
        field: EditableField::NewTitle,
        buffer: "abc".to_string(),
    };

    let action = key_to_action(
        &mode,
        Pane::Detail,
        DetailField::Title,
        KeyCode::Esc,
    );

    assert_eq!(action, Action::CancelInsert);
}

#[test]
fn key_to_action_should_map_enter_in_insert_mode_to_submit_insert() {
    let mode = Mode::Insert {
        field: EditableField::NewTitle,
        buffer: "abc".to_string(),
    };

    let action = key_to_action(
        &mode,
        Pane::List,
        DetailField::Title,
        KeyCode::Enter,
    );

    assert_eq!(action, Action::SubmitInsert);
}

#[test]
fn key_to_action_should_map_enter_in_normal_list_pane_to_enter_detail() {
    let action = key_to_action(
        &Mode::Normal,
        Pane::List,
        DetailField::Title,
        KeyCode::Enter,
    );

    assert_eq!(action, Action::EnterDetail);
}

#[test]
fn key_to_action_should_map_esc_in_normal_detail_pane_to_leave_detail() {
    let action = key_to_action(
        &Mode::Normal,
        Pane::Detail,
        DetailField::Title,
        KeyCode::Esc,
    );

    assert_eq!(action, Action::LeaveDetail);
}

#[test]
fn key_to_action_should_map_j_k_in_detail_pane_to_move_detail_cursor() {
    let down = key_to_action(
        &Mode::Normal,
        Pane::Detail,
        DetailField::Title,
        KeyCode::Char('j'),
    );
    let up = key_to_action(
        &Mode::Normal,
        Pane::Detail,
        DetailField::Description,
        KeyCode::Char('k'),
    );

    assert_eq!(down, Action::DetailCursorDown);
    assert_eq!(up, Action::DetailCursorUp);
}

#[test]
fn key_to_action_should_map_i_on_title_cursor_to_start_edit_title() {
    let action = key_to_action(
        &Mode::Normal,
        Pane::Detail,
        DetailField::Title,
        KeyCode::Char('i'),
    );

    assert_eq!(action, Action::StartEditTitle);
}

#[test]
fn key_to_action_should_map_i_on_description_cursor_to_start_edit_description() {
    let action = key_to_action(
        &Mode::Normal,
        Pane::Detail,
        DetailField::Description,
        KeyCode::Char('i'),
    );

    assert_eq!(action, Action::StartEditDescription);
}

#[test]
fn key_to_action_should_map_d_in_normal_mode_to_d_key_pressed() {
    let action = key_to_action(
        &Mode::Normal,
        Pane::List,
        DetailField::Title,
        KeyCode::Char('d'),
    );

    assert_eq!(action, Action::DKeyPressed);
}

#[test]
fn key_to_action_should_map_y_in_confirm_mode_to_confirm_yes() {
    let mode = Mode::Confirm {
        prompt: "Delete \"Task\"? (y/n)".to_string(),
        action: PendingAction::Delete(TaskId::new()),
    };

    let action = key_to_action(
        &mode,
        Pane::List,
        DetailField::Title,
        KeyCode::Char('y'),
    );

    assert_eq!(action, Action::ConfirmYes);
}

#[test]
fn key_to_action_should_map_n_in_confirm_mode_to_confirm_no() {
    let mode = Mode::Confirm {
        prompt: "Delete \"Task\"? (y/n)".to_string(),
        action: PendingAction::Delete(TaskId::new()),
    };

    let action = key_to_action(
        &mode,
        Pane::List,
        DetailField::Title,
        KeyCode::Char('n'),
    );

    assert_eq!(action, Action::ConfirmNo);
}

#[test]
fn key_to_action_should_map_x_in_normal_list_to_toggle_complete() {
    let action = key_to_action(
        &Mode::Normal,
        Pane::List,
        DetailField::Title,
        KeyCode::Char('x'),
    );

    assert_eq!(action, Action::ToggleComplete);
}

#[test]
fn key_to_action_should_map_space_in_normal_list_to_toggle_complete() {
    let action = key_to_action(
        &Mode::Normal,
        Pane::List,
        DetailField::Title,
        KeyCode::Char(' '),
    );

    assert_eq!(action, Action::ToggleComplete);
}

#[test]
fn key_to_action_should_map_x_in_normal_detail_pane_to_toggle_complete() {
    let action = key_to_action(
        &Mode::Normal,
        Pane::Detail,
        DetailField::Title,
        KeyCode::Char('x'),
    );

    assert_eq!(action, Action::ToggleComplete);
}

#[test]
fn key_to_action_should_map_esc_in_confirm_mode_to_confirm_no() {
    let mode = Mode::Confirm {
        prompt: "Delete \"Task\"? (y/n)".to_string(),
        action: PendingAction::Delete(TaskId::new()),
    };

    let action = key_to_action(
        &mode,
        Pane::List,
        DetailField::Title,
        KeyCode::Esc,
    );

    assert_eq!(action, Action::ConfirmNo);
}

#[test]
fn key_to_action_should_map_question_mark_in_normal_list_to_open_help() {
    let action = key_to_action(
        &Mode::Normal,
        Pane::List,
        DetailField::Title,
        KeyCode::Char('?'),
    );

    assert_eq!(action, Action::OpenHelp);
}

#[test]
fn key_to_action_should_map_question_mark_in_normal_detail_to_open_help() {
    let action = key_to_action(
        &Mode::Normal,
        Pane::Detail,
        DetailField::Title,
        KeyCode::Char('?'),
    );

    assert_eq!(action, Action::OpenHelp);
}

#[test]
fn key_to_action_should_map_question_mark_in_confirm_mode_to_open_help() {
    let mode = Mode::Confirm {
        prompt: "Delete \"Task\"? (y/n)".to_string(),
        action: PendingAction::Delete(TaskId::new()),
    };

    let action = key_to_action(
        &mode,
        Pane::List,
        DetailField::Title,
        KeyCode::Char('?'),
    );

    assert_eq!(action, Action::OpenHelp);
}

#[test]
fn key_to_action_should_map_f1_in_insert_mode_to_open_help() {
    let mode = Mode::Insert {
        field: EditableField::NewTitle,
        buffer: String::new(),
    };

    let action = key_to_action(
        &mode,
        Pane::List,
        DetailField::Title,
        KeyCode::F(1),
    );

    assert_eq!(action, Action::OpenHelp);
}

#[test]
fn key_to_action_should_still_map_question_mark_char_in_insert_mode_to_insert_char() {
    let mode = Mode::Insert {
        field: EditableField::NewTitle,
        buffer: String::new(),
    };

    let action = key_to_action(
        &mode,
        Pane::List,
        DetailField::Title,
        KeyCode::Char('?'),
    );

    assert_eq!(action, Action::InsertChar('?'));
}

#[test]
fn key_to_action_should_map_esc_in_help_mode_to_close_help() {
    let mode = Mode::Help {
        previous: Box::new(Mode::Normal),
    };

    let action = key_to_action(
        &mode,
        Pane::List,
        DetailField::Title,
        KeyCode::Esc,
    );

    assert_eq!(action, Action::CloseHelp);
}

#[test]
fn key_to_action_should_map_h_and_left_to_collapse_focused() {
    let via_h = key_to_action(
        &Mode::Normal,
        Pane::List,
        DetailField::Title,
        KeyCode::Char('h'),
    );
    let via_left = key_to_action(
        &Mode::Normal,
        Pane::List,
        DetailField::Title,
        KeyCode::Left,
    );

    assert_eq!(via_h, Action::CollapseFocused);
    assert_eq!(via_left, Action::CollapseFocused);
}

#[test]
fn key_to_action_should_map_l_and_right_to_expand_focused() {
    let via_l = key_to_action(
        &Mode::Normal,
        Pane::List,
        DetailField::Title,
        KeyCode::Char('l'),
    );
    let via_right = key_to_action(
        &Mode::Normal,
        Pane::List,
        DetailField::Title,
        KeyCode::Right,
    );

    assert_eq!(via_l, Action::ExpandFocused);
    assert_eq!(via_right, Action::ExpandFocused);
}

#[test]
fn key_to_action_should_map_uppercase_e_to_expand_all() {
    let action = key_to_action(
        &Mode::Normal,
        Pane::List,
        DetailField::Title,
        KeyCode::Char('E'),
    );

    assert_eq!(action, Action::ExpandAll);
}

#[test]
fn key_to_action_should_map_uppercase_c_to_collapse_all() {
    let action = key_to_action(
        &Mode::Normal,
        Pane::List,
        DetailField::Title,
        KeyCode::Char('C'),
    );

    assert_eq!(action, Action::CollapseAll);
}

#[test]
fn help_entries_for_normal_list_should_include_collapse_expand_bindings() {
    let entries = help_entries(&Mode::Normal, Pane::List, DetailField::Title);

    assert!(
        entries
            .iter()
            .any(|e| e.key == "h/←" && e.description == "Collapse the focused task")
    );
    assert!(
        entries
            .iter()
            .any(|e| e.key == "l/→" && e.description == "Expand the focused task")
    );
    assert!(
        entries
            .iter()
            .any(|e| e.key == "E" && e.description == "Expand all tasks")
    );
    assert!(
        entries
            .iter()
            .any(|e| e.key == "C" && e.description == "Collapse all tasks")
    );
}

#[test]
fn help_entries_for_normal_list_should_include_move_and_delete_and_toggle_bindings() {
    let entries = help_entries(&Mode::Normal, Pane::List, DetailField::Title);

    assert!(
        entries
            .iter()
            .any(|e| e.key == "j/↓" && e.description == "Move the selection down")
    );
    assert!(
        entries
            .iter()
            .any(|e| e.key == "dd" && e.description.contains("Delete"))
    );
    assert!(
        entries
            .iter()
            .any(|e| e.key == "x/Space" && e.description == "Toggle complete/incomplete")
    );
}

#[test]
fn help_entries_for_normal_detail_should_describe_i_binding_by_focused_field() {
    let title_entries = help_entries(&Mode::Normal, Pane::Detail, DetailField::Title);
    let description_entries =
        help_entries(&Mode::Normal, Pane::Detail, DetailField::Description);

    assert!(
        title_entries
            .iter()
            .any(|e| e.key == "i" && e.description == "Edit title")
    );
    assert!(
        description_entries
            .iter()
            .any(|e| e.key == "i" && e.description == "Edit description")
    );
}

#[test]
fn help_entries_for_insert_should_include_f1_and_exclude_open_help_from_normal_list() {
    let mode = Mode::Insert {
        field: EditableField::NewTitle,
        buffer: String::new(),
    };

    let entries = help_entries(&mode, Pane::List, DetailField::Title);

    assert!(entries.iter().any(|e| e.key == "F1"));
    assert!(!entries.iter().any(|e| e.key == "?"));
}

#[test]
fn help_entries_for_confirm_should_include_y_and_n_bindings() {
    let mode = Mode::Confirm {
        prompt: "Delete \"Task\"? (y/n)".to_string(),
        action: PendingAction::Delete(TaskId::new()),
    };

    let entries = help_entries(&mode, Pane::List, DetailField::Title);

    assert!(entries.iter().any(|e| e.key == "y"));
    assert!(entries.iter().any(|e| e.key == "n/Esc"));
}

#[test]
fn help_entries_for_help_mode_should_return_empty() {
    let mode = Mode::Help {
        previous: Box::new(Mode::Normal),
    };

    let entries = help_entries(&mode, Pane::List, DetailField::Title);

    assert!(entries.is_empty());
}
