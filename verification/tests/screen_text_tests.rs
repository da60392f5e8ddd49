use bala::ids::TaskId;
use bala::mode::{DetailField, EditableField, Mode, Pane};
use bala::model::TaskStatus;
use bala::render::TaskRow;
use bala::screen_text::{detail_lines, help_overlay_lines, insert_line_text, row_line_text, MAX_INDENT_DEPTH};

fn row(title: &str, status: TaskStatus) -> TaskRow {
    TaskRow {
        id: TaskId::new(),
        title: title.to_owned(),
        type_label: "Task".to_owned(),
        status,
        assignee_name: None,
        depth: 0,
        has_children: false,
        collapsed: false,
        direct_summary: None,
    }
}

#[test]
fn row_line_text_marks_complete_and_incomplete_rows() {
    assert_eq!(row_line_text(&row("First task", TaskStatus::Incomplete)), " [ ] First task  [Task]  Unassigned");
    assert_eq!(row_line_text(&row("Second task", TaskStatus::Complete)), " [x] Second task  [Task]  Unassigned");
}

#[test]
fn row_line_text_indents_two_spaces_per_level() {
    let mut child = row("Child task", TaskStatus::Incomplete);
    child.depth = 2;
    child.assignee_name = Some("Ada".to_owned());
    assert_eq!(row_line_text(&child), "     [ ] Child task  [Task]  Ada");
}

#[test]
fn row_line_text_caps_indentation() {
    let mut at_cap = row("Deep", TaskStatus::Incomplete);
    at_cap.depth = MAX_INDENT_DEPTH;
    let mut beyond = row("Deep", TaskStatus::Incomplete);
    beyond.depth = MAX_INDENT_DEPTH + 500;
    let line = row_line_text(&beyond);
    assert_eq!(line, row_line_text(&at_cap));
    assert_eq!(line.chars().take_while(|c| *c == ' ').count(), 2 * MAX_INDENT_DEPTH + 1);
}

#[test]
fn row_line_text_shows_glyphs_and_collapsed_summary() {
    let mut open = row("Parent", TaskStatus::Incomplete);
    open.has_children = true;
    assert_eq!(row_line_text(&open), "▾[ ] Parent  [Task]  Unassigned");

    let mut closed = row("Parent", TaskStatus::Complete);
    closed.has_children = true;
    closed.collapsed = true;
    closed.direct_summary = Some((1, 2));
    assert_eq!(row_line_text(&closed), "▸[x] Parent (1/2)  [Task]  Unassigned");
}

#[test]
fn insert_line_text_labels_each_field() {
    let id = TaskId::new();
    assert_eq!(insert_line_text(EditableField::NewTitle, "Wri"), "New task: Wri_");
    assert_eq!(insert_line_text(EditableField::Title(id), ""), "Title: _");
    assert_eq!(insert_line_text(EditableField::Description(id), "x"), "Description: x_");
    assert_eq!(insert_line_text(EditableField::NewSubtaskTitle(id), "s"), "New subtask: s_");
    assert_eq!(insert_line_text(EditableField::Parents(id), "a,b"), "Parents (comma-separated ids): a,b_");
    assert_eq!(insert_line_text(EditableField::TypeKey(id), "goal"), "Type: goal_");
}

#[test]
fn help_overlay_lines_list_the_bindings_then_the_close_hint() {
    let lines = help_overlay_lines(&Mode::Normal, Pane::List, DetailField::Title);
    assert!(lines.iter().any(|l| l == "j/↓ — Move the selection down"));
    assert!(lines.iter().any(|l| l == "dd — Delete the selected task (press d twice)"));
    assert_eq!(lines.last().map(String::as_str), Some("Esc — close help"));

    let insert = Mode::Insert { field: EditableField::NewTitle, buffer: String::new() };
    let lines = help_overlay_lines(&insert, Pane::List, DetailField::Title);
    assert!(lines.iter().any(|l| l == "F1 — Show the keybinding help overlay"));
    assert!(!lines.iter().any(|l| l == "j/↓ — Move the selection down"));

    let lines = help_overlay_lines(&Mode::Normal, Pane::Detail, DetailField::Title);
    assert!(lines.iter().any(|l| l == "Esc — Leave the Detail pane, back to the list"));
    assert!(lines.iter().any(|l| l == "i — Edit title"));
}

#[test]
fn detail_lines_show_title_and_description() {
    let (title, description) = detail_lines("Write docs", Some("Document the CLI commands"));
    assert_eq!(title, "Title: Write docs");
    assert_eq!(description, "Description: Document the CLI commands");
    let (_, empty) = detail_lines("Write docs", None);
    assert_eq!(empty, "Description: ");
}
