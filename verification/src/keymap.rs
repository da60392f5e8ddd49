//! Maps a key to an `Action`, given the current mode, pane and Detail-pane
//! field, and lists the bindings for the help overlay. The help listing is
//! read from the same binding tables the mapping uses, so the two cannot
//! drift apart.

use vstd::prelude::*;

use crate::mode::{DetailField, Mode, Pane};
use crate::text::owned;

verus! {

/// A key, as the terminal view tells them apart (modifiers play no part).
#[derive(Debug, Clone, Copy, PartialEq, Eq, Structural, Hash)]
pub enum KeyCode {
    Char(char),
    Up,
    Down,
    Left,
    Right,
    Enter,
    Esc,
    Backspace,
    /// A function key, by number.
    F(u8),
    /// Any other key.
    Other,
}

/// An intent derived from a key in the current mode and pane.
#[derive(Debug, Clone, Copy, PartialEq, Eq, Structural)]
pub enum Action {
    MoveDown,
    MoveUp,
    Quit,
    /// Start typing a new top-level task's title.
    StartInsertNewTitle,
    /// Start typing a new subtask under the focused task.
    StartInsertNewSubtask,
    /// Start editing the focused task's parents.
    StartReparent,
    /// Start setting the focused task's type.
    StartSetType,
    /// Open the Detail pane on the focused task.
    EnterDetail,
    /// Back out of the Detail pane to the list.
    LeaveDetail,
    /// Move the Detail-pane cursor to the next field.
    DetailCursorDown,
    /// Move the Detail-pane cursor to the previous field.
    DetailCursorUp,
    /// Start editing the focused task's title.
    StartEditTitle,
    /// Start editing the focused task's description.
    StartEditDescription,
    /// Toggle the focused task between complete and incomplete.
    ToggleComplete,
    /// Type a character into the edit buffer.
    InsertChar(char),
    /// Remove the last character of the edit buffer.
    Backspace,
    /// Discard the edit.
    CancelInsert,
    /// Submit the edit.
    SubmitInsert,
    /// One press of `d`; two in a row ask to delete the focused task.
    DKeyPressed,
    /// Run the pending action.
    ConfirmYes,
    /// Cancel the pending action.
    ConfirmNo,
    /// Open the key-binding overlay.
    OpenHelp,
    /// Close the key-binding overlay.
    CloseHelp,
    /// Hide the focused task's descendants.
    CollapseFocused,
    /// Show the focused task's descendants again.
    ExpandFocused,
    /// Expand every collapsed task.
    ExpandAll,
    /// Collapse every task that has children.
    CollapseAll,
    /// Cycle the active type filter.
    CycleTypeFilter,
    /// Move the focused task down among its siblings.
    MoveTaskDown,
    /// Move the focused task up among its siblings.
    MoveTaskUp,
    /// Indent the focused task under its previous sibling.
    IndentTask,
    /// Outdent the focused task to its parent's level.
    OutdentTask,
    /// The key means nothing here.
    Noop,
}

/// One key binding: the keys that trigger `action`, and how the help
/// overlay shows it.
#[derive(Debug, Clone)]
pub struct Binding {
    pub keys: Vec<KeyCode>,
    pub action: Action,
    /// Short label for the keys, e.g. `"j/↓"`.
    pub label: String,
    /// What the action does.
    pub description: String,
}

pub struct BindingView {
    pub keys: Seq<KeyCode>,
    pub action: Action,
    pub label: Seq<char>,
    pub description: Seq<char>,
}

impl View for Binding {
    type V = BindingView;

    open spec fn view(&self) -> BindingView {
        BindingView {
            keys: self.keys@,
            action: self.action,
            label: self.label@,
            description: self.description@,
        }
    }
}

pub open spec fn binding_views(bs: Seq<Binding>) -> Seq<BindingView> {
    bs.map_values(|b: Binding| b@)
}

fn keys1(a: KeyCode) -> (r: Vec<KeyCode>)
    ensures
        r@ == seq![a],
{
    let mut r: Vec<KeyCode> = Vec::new();
    r.push(a);
    assert(r@ =~= seq![a]);
    r
}

fn keys2(a: KeyCode, b: KeyCode) -> (r: Vec<KeyCode>)
    ensures
        r@ == seq![a, b],
{
    let mut r: Vec<KeyCode> = Vec::new();
    r.push(a);
    r.push(b);
    assert(r@ =~= seq![a, b]);
    r
}

fn binding(keys: Vec<KeyCode>, action: Action, label: &str, description: &str) -> (b: Binding)
    ensures
        b@ == (BindingView { keys: keys@, action, label: label@, description: description@ }),
{
    Binding { keys, action, label: owned(label), description: owned(description) }
}

/// The bindings of `Mode::Normal`, List pane.
pub open spec fn normal_list_table() -> Seq<BindingView> {
    seq![
        BindingView { keys: seq![KeyCode::Char('j'), KeyCode::Down], action: Action::MoveDown, label: "j/↓"@, description: "Move the selection down"@ },
        BindingView { keys: seq![KeyCode::Char('k'), KeyCode::Up], action: Action::MoveUp, label: "k/↑"@, description: "Move the selection up"@ },
        BindingView { keys: seq![KeyCode::Char('q')], action: Action::Quit, label: "q"@, description: "Quit, restoring the terminal to its normal state"@ },
        BindingView { keys: seq![KeyCode::Char('O')], action: Action::StartInsertNewTitle, label: "O"@, description: "Create a new top-level task"@ },
        BindingView { keys: seq![KeyCode::Char('o')], action: Action::StartInsertNewSubtask, label: "o"@, description: "Create a new subtask under the selected task"@ },
        BindingView { keys: seq![KeyCode::Char('m')], action: Action::StartReparent, label: "m"@, description: "Reparent the selected task"@ },
        BindingView { keys: seq![KeyCode::Enter], action: Action::EnterDetail, label: "Enter"@, description: "Open the Detail pane for the selected task"@ },
        BindingView { keys: seq![KeyCode::Char('d')], action: Action::DKeyPressed, label: "dd"@, description: "Delete the selected task (press d twice)"@ },
        BindingView { keys: seq![KeyCode::Char('x'), KeyCode::Char(' ')], action: Action::ToggleComplete, label: "x/Space"@, description: "Toggle complete/incomplete"@ },
        BindingView { keys: seq![KeyCode::Char('?')], action: Action::OpenHelp, label: "?"@, description: "Show the keybinding help overlay"@ },
        BindingView { keys: seq![KeyCode::Char('h'), KeyCode::Left], action: Action::CollapseFocused, label: "h/←"@, description: "Collapse the focused task"@ },
        BindingView { keys: seq![KeyCode::Char('l'), KeyCode::Right], action: Action::ExpandFocused, label: "l/→"@, description: "Expand the focused task"@ },
        BindingView { keys: seq![KeyCode::Char('E')], action: Action::ExpandAll, label: "E"@, description: "Expand all tasks"@ },
        BindingView { keys: seq![KeyCode::Char('C')], action: Action::CollapseAll, label: "C"@, description: "Collapse all tasks"@ },
        BindingView { keys: seq![KeyCode::Char('J')], action: Action::MoveTaskDown, label: "J"@, description: "Move task down among siblings"@ },
        BindingView { keys: seq![KeyCode::Char('K')], action: Action::MoveTaskUp, label: "K"@, description: "Move task up among siblings"@ },
        BindingView { keys: seq![KeyCode::Char('L')], action: Action::IndentTask, label: "L"@, description: "Indent task under previous sibling"@ },
        BindingView { keys: seq![KeyCode::Char('H')], action: Action::OutdentTask, label: "H"@, description: "Outdent task to parent's level"@ },
        BindingView { keys: seq![KeyCode::Char('t')], action: Action::StartSetType, label: "t"@, description: "Set the selected task's type"@ },
        BindingView { keys: seq![KeyCode::Char('f')], action: Action::CycleTypeFilter, label: "f"@, description: "Cycle the active type filter"@ },
    ]
}

/// The bindings of `Mode::Normal`, List pane, as values.
pub fn normal_list_bindings() -> (r: Vec<Binding>)
    ensures
        binding_views(r@) == normal_list_table(),
{
    let mut r: Vec<Binding> = Vec::new();
    r.push(binding(keys2(KeyCode::Char('j'), KeyCode::Down), Action::MoveDown, "j/↓", "Move the selection down"));
    r.push(binding(keys2(KeyCode::Char('k'), KeyCode::Up), Action::MoveUp, "k/↑", "Move the selection up"));
    r.push(binding(keys1(KeyCode::Char('q')), Action::Quit, "q", "Quit, restoring the terminal to its normal state"));
    r.push(binding(keys1(KeyCode::Char('O')), Action::StartInsertNewTitle, "O", "Create a new top-level task"));
    r.push(binding(keys1(KeyCode::Char('o')), Action::StartInsertNewSubtask, "o", "Create a new subtask under the selected task"));
    r.push(binding(keys1(KeyCode::Char('m')), Action::StartReparent, "m", "Reparent the selected task"));
    r.push(binding(keys1(KeyCode::Enter), Action::EnterDetail, "Enter", "Open the Detail pane for the selected task"));
    r.push(binding(keys1(KeyCode::Char('d')), Action::DKeyPressed, "dd", "Delete the selected task (press d twice)"));
    r.push(binding(keys2(KeyCode::Char('x'), KeyCode::Char(' ')), Action::ToggleComplete, "x/Space", "Toggle complete/incomplete"));
    r.push(binding(keys1(KeyCode::Char('?')), Action::OpenHelp, "?", "Show the keybinding help overlay"));
    r.push(binding(keys2(KeyCode::Char('h'), KeyCode::Left), Action::CollapseFocused, "h/←", "Collapse the focused task"));
    r.push(binding(keys2(KeyCode::Char('l'), KeyCode::Right), Action::ExpandFocused, "l/→", "Expand the focused task"));
    r.push(binding(keys1(KeyCode::Char('E')), Action::ExpandAll, "E", "Expand all tasks"));
    r.push(binding(keys1(KeyCode::Char('C')), Action::CollapseAll, "C", "Collapse all tasks"));
    r.push(binding(keys1(KeyCode::Char('J')), Action::MoveTaskDown, "J", "Move task down among siblings"));
    r.push(binding(keys1(KeyCode::Char('K')), Action::MoveTaskUp, "K", "Move task up among siblings"));
    r.push(binding(keys1(KeyCode::Char('L')), Action::IndentTask, "L", "Indent task under previous sibling"));
    r.push(binding(keys1(KeyCode::Char('H')), Action::OutdentTask, "H", "Outdent task to parent's level"));
    r.push(binding(keys1(KeyCode::Char('t')), Action::StartSetType, "t", "Set the selected task's type"));
    r.push(binding(keys1(KeyCode::Char('f')), Action::CycleTypeFilter, "f", "Cycle the active type filter"));
    assert(binding_views(r@) =~= normal_list_table());
    r
}

/// The bindings of `Mode::Normal`, Detail pane (its `i` key depends on the field under the cursor and is handled apart).
pub open spec fn normal_detail_table() -> Seq<BindingView> {
    seq![
        BindingView { keys: seq![KeyCode::Esc], action: Action::LeaveDetail, label: "Esc"@, description: "Leave the Detail pane, back to the list"@ },
        BindingView { keys: seq![KeyCode::Char('j'), KeyCode::Down], action: Action::DetailCursorDown, label: "j/↓"@, description: "Move the field cursor down"@ },
        BindingView { keys: seq![KeyCode::Char('k'), KeyCode::Up], action: Action::DetailCursorUp, label: "k/↑"@, description: "Move the field cursor up"@ },
        BindingView { keys: seq![KeyCode::Char('q')], action: Action::Quit, label: "q"@, description: "Quit, restoring the terminal to its normal state"@ },
        BindingView { keys: seq![KeyCode::Char('x'), KeyCode::Char(' ')], action: Action::ToggleComplete, label: "x/Space"@, description: "Toggle complete/incomplete"@ },
        BindingView { keys: seq![KeyCode::Char('?')], action: Action::OpenHelp, label: "?"@, description: "Show the keybinding help overlay"@ },
    ]
}

/// The bindings of `Mode::Normal`, Detail pane (its `i` key depends on the field under the cursor and is handled apart), as values.
pub fn normal_detail_bindings() -> (r: Vec<Binding>)
    ensures
        binding_views(r@) == normal_detail_table(),
{
    let mut r: Vec<Binding> = Vec::new();
    r.push(binding(keys1(KeyCode::Esc), Action::LeaveDetail, "Esc", "Leave the Detail pane, back to the list"));
    r.push(binding(keys2(KeyCode::Char('j'), KeyCode::Down), Action::DetailCursorDown, "j/↓", "Move the field cursor down"));
    r.push(binding(keys2(KeyCode::Char('k'), KeyCode::Up), Action::DetailCursorUp, "k/↑", "Move the field cursor up"));
    r.push(binding(keys1(KeyCode::Char('q')), Action::Quit, "q", "Quit, restoring the terminal to its normal state"));
    r.push(binding(keys2(KeyCode::Char('x'), KeyCode::Char(' ')), Action::ToggleComplete, "x/Space", "Toggle complete/incomplete"));
    r.push(binding(keys1(KeyCode::Char('?')), Action::OpenHelp, "?", "Show the keybinding help overlay"));
    assert(binding_views(r@) =~= normal_detail_table());
    r
}

/// The bindings of `Mode::Insert` (any other character is typed into the buffer).
pub open spec fn insert_table() -> Seq<BindingView> {
    seq![
        BindingView { keys: seq![KeyCode::Esc], action: Action::CancelInsert, label: "Esc"@, description: "Discard the edit and return"@ },
        BindingView { keys: seq![KeyCode::Enter], action: Action::SubmitInsert, label: "Enter"@, description: "Submit the edit"@ },
        BindingView { keys: seq![KeyCode::Backspace], action: Action::Backspace, label: "Backspace"@, description: "Remove the last character"@ },
        BindingView { keys: seq![KeyCode::F(1u8)], action: Action::OpenHelp, label: "F1"@, description: "Show the keybinding help overlay"@ },
    ]
}

/// The bindings of `Mode::Insert` (any other character is typed into the buffer), as values.
pub fn insert_bindings() -> (r: Vec<Binding>)
    ensures
        binding_views(r@) == insert_table(),
{
    let mut r: Vec<Binding> = Vec::new();
    r.push(binding(keys1(KeyCode::Esc), Action::CancelInsert, "Esc", "Discard the edit and return"));
    r.push(binding(keys1(KeyCode::Enter), Action::SubmitInsert, "Enter", "Submit the edit"));
    r.push(binding(keys1(KeyCode::Backspace), Action::Backspace, "Backspace", "Remove the last character"));
    r.push(binding(keys1(KeyCode::F(1u8)), Action::OpenHelp, "F1", "Show the keybinding help overlay"));
    assert(binding_views(r@) =~= insert_table());
    r
}

/// The bindings of `Mode::Confirm`.
pub open spec fn confirm_table() -> Seq<BindingView> {
    seq![
        BindingView { keys: seq![KeyCode::Char('y')], action: Action::ConfirmYes, label: "y"@, description: "Confirm"@ },
        BindingView { keys: seq![KeyCode::Char('n'), KeyCode::Esc], action: Action::ConfirmNo, label: "n/Esc"@, description: "Cancel"@ },
        BindingView { keys: seq![KeyCode::Char('?')], action: Action::OpenHelp, label: "?"@, description: "Show the keybinding help overlay"@ },
    ]
}

/// The bindings of `Mode::Confirm`, as values.
pub fn confirm_bindings() -> (r: Vec<Binding>)
    ensures
        binding_views(r@) == confirm_table(),
{
    let mut r: Vec<Binding> = Vec::new();
    r.push(binding(keys1(KeyCode::Char('y')), Action::ConfirmYes, "y", "Confirm"));
    r.push(binding(keys2(KeyCode::Char('n'), KeyCode::Esc), Action::ConfirmNo, "n/Esc", "Cancel"));
    r.push(binding(keys1(KeyCode::Char('?')), Action::OpenHelp, "?", "Show the keybinding help overlay"));
    assert(binding_views(r@) =~= confirm_table());
    r
}

/// The action of the first binding among `bs[i..]` whose keys hold `code`.
pub open spec fn lookup_from(bs: Seq<BindingView>, code: KeyCode, i: int) -> Option<Action>
    decreases bs.len() - i,
{
    if i < 0 || i >= bs.len() {
        None
    } else if bs[i].keys.contains(code) {
        Some(bs[i].action)
    } else {
        lookup_from(bs, code, i + 1)
    }
}

/// `a`, or `Noop` when there is none.
pub open spec fn or_noop(a: Option<Action>) -> Action {
    match a {
        Some(x) => x,
        None => Action::Noop,
    }
}

/// What `code` means in `mode`, `pane` and with `field` under the
/// Detail-pane cursor. `Esc` always cancels an edit; in the Detail pane it
/// backs out to the list.
pub open spec fn key_action(mode: Mode, pane: Pane, field: DetailField, code: KeyCode) -> Action {
    match mode {
        Mode::Normal => match pane {
            Pane::List => or_noop(lookup_from(normal_list_table(), code, 0)),
            Pane::Detail => if code == KeyCode::Char('i') {
                match field {
                    DetailField::Title => Action::StartEditTitle,
                    DetailField::Description => Action::StartEditDescription,
                }
            } else {
                or_noop(lookup_from(normal_detail_table(), code, 0))
            },
        },
        Mode::Insert { .. } => match lookup_from(insert_table(), code, 0) {
            Some(a) => a,
            None => match code {
                KeyCode::Char(c) => Action::InsertChar(c),
                _ => Action::Noop,
            },
        },
        Mode::Confirm { .. } => or_noop(lookup_from(confirm_table(), code, 0)),
        Mode::Help { .. } => if code == KeyCode::Esc {
            Action::CloseHelp
        } else {
            Action::Noop
        },
    }
}

fn contains_key(keys: &Vec<KeyCode>, code: KeyCode) -> (r: bool)
    ensures
        r == keys@.contains(code),
{
    let mut i: usize = 0;
    while i < keys.len()
        invariant
            i <= keys.len(),
            forall|j: int| 0 <= j < i ==> keys@[j] != code,
        decreases keys.len() - i,
    {
        if keys[i] == code {
            assert(keys@[i as int] == code);
            return true;
        }
        i = i + 1;
    }
    false
}

/// The action of the first binding whose keys hold `code`.
fn lookup(bindings: &Vec<Binding>, code: KeyCode) -> (r: Option<Action>)
    ensures
        r == lookup_from(binding_views(bindings@), code, 0),
{
    let ghost bs = binding_views(bindings@);
    let mut i: usize = 0;
    while i < bindings.len()
        invariant
            i <= bindings.len(),
            bs == binding_views(bindings@),
            lookup_from(bs, code, 0) == lookup_from(bs, code, i as int),
        decreases bindings.len() - i,
    {
        assert(bs[i as int] == bindings@[i as int]@);
        if contains_key(&bindings[i].keys, code) {
            return Some(bindings[i].action);
        }
        i = i + 1;
    }
    None
}

/// Maps `code` to an `Action` in `mode`, `pane` and with `detail_field`
/// under the Detail-pane cursor.
pub fn key_to_action(mode: &Mode, pane: Pane, detail_field: DetailField, code: KeyCode) -> (r: Action)
    ensures
        r == key_action(*mode, pane, detail_field, code),
{
    match mode {
        Mode::Normal => match pane {
            Pane::List => match lookup(&normal_list_bindings(), code) {
                Some(a) => a,
                None => Action::Noop,
            },
            Pane::Detail => {
                if code == KeyCode::Char('i') {
                    return match detail_field {
                        DetailField::Title => Action::StartEditTitle,
                        DetailField::Description => Action::StartEditDescription,
                    };
                }
                match lookup(&normal_detail_bindings(), code) {
                    Some(a) => a,
                    None => Action::Noop,
                }
            },
        },
        Mode::Insert { .. } => match lookup(&insert_bindings(), code) {
            Some(a) => a,
            None => match code {
                KeyCode::Char(c) => Action::InsertChar(c),
                _ => Action::Noop,
            },
        },
        Mode::Confirm { .. } => match lookup(&confirm_bindings(), code) {
            Some(a) => a,
            None => Action::Noop,
        },
        Mode::Help { .. } => if code == KeyCode::Esc {
            Action::CloseHelp
        } else {
            Action::Noop
        },
    }
}

/// What the Detail pane's `i` key does with `field` under the cursor.
pub open spec fn edit_label(field: DetailField) -> Seq<char> {
    match field {
        DetailField::Title => "Edit title"@,
        DetailField::Description => "Edit description"@,
    }
}

/// The help overlay's description of the Detail pane's `i` key.
pub fn detail_edit_label(field: DetailField) -> (s: String)
    ensures
        s@ == edit_label(field),
{
    match field {
        DetailField::Title => owned("Edit title"),
        DetailField::Description => owned("Edit description"),
    }
}

/// One line of the help overlay: a key label and what it does.
#[derive(Debug, Clone, PartialEq, Eq)]
pub struct HelpEntry {
    pub key: String,
    pub description: String,
}

pub struct HelpEntryView {
    pub key: Seq<char>,
    pub description: Seq<char>,
}

impl View for HelpEntry {
    type V = HelpEntryView;

    open spec fn view(&self) -> HelpEntryView {
        HelpEntryView { key: self.key@, description: self.description@ }
    }
}

pub open spec fn entry_views(es: Seq<HelpEntry>) -> Seq<HelpEntryView> {
    es.map_values(|e: HelpEntry| e@)
}

/// The help line of a binding.
pub open spec fn entry_of(b: BindingView) -> HelpEntryView {
    HelpEntryView { key: b.label, description: b.description }
}

/// The help listing for the keys of `mode` (the mode the overlay was opened
/// from), `pane` and `field`.
pub open spec fn help_listing(mode: Mode, pane: Pane, field: DetailField) -> Seq<HelpEntryView> {
    match mode {
        Mode::Normal => match pane {
            Pane::List => normal_list_table().map_values(|b: BindingView| entry_of(b)),
            Pane::Detail => normal_detail_table().map_values(|b: BindingView| entry_of(b)).push(
                HelpEntryView { key: "i"@, description: edit_label(field) },
            ),
        },
        Mode::Insert { .. } => insert_table().map_values(|b: BindingView| entry_of(b)),
        Mode::Confirm { .. } => confirm_table().map_values(|b: BindingView| entry_of(b)),
        Mode::Help { .. } => seq![],
    }
}

fn entries_of(bindings: &Vec<Binding>) -> (r: Vec<HelpEntry>)
    ensures
        entry_views(r@) == binding_views(bindings@).map_values(|b: BindingView| entry_of(b)),
{
    let mut r: Vec<HelpEntry> = Vec::new();
    let mut i: usize = 0;
    while i < bindings.len()
        invariant
            i <= bindings.len(),
            entry_views(r@) == binding_views(bindings@).subrange(0, i as int).map_values(
                |b: BindingView| entry_of(b),
            ),
        decreases bindings.len() - i,
    {
        let e = HelpEntry {
            key: bindings[i].label.clone(),
            description: bindings[i].description.clone(),
        };
        let ghost before = r@;
        r.push(e);
        proof {
            let bs = binding_views(bindings@);
            assert(bs[i as int] == bindings@[i as int]@);
            assert(e@ == entry_of(bs[i as int]));
            assert(entry_views(r@) =~= entry_views(before).push(e@));
            assert(bs.subrange(0, i + 1) =~= bs.subrange(0, i as int).push(bs[i as int]));
            assert(bs.subrange(0, i + 1).map_values(|b: BindingView| entry_of(b)) =~= bs.subrange(
                0,
                i as int,
            ).map_values(|b: BindingView| entry_of(b)).push(entry_of(bs[i as int])));
        }
        i = i + 1;
    }
    assert(binding_views(bindings@).subrange(0, bindings.len() as int) =~= binding_views(bindings@));
    r
}

/// The help overlay's listing for `mode` (the mode the overlay fronts for),
/// `pane` and `detail_field`, read from the binding tables.
pub fn help_entries(mode: &Mode, pane: Pane, detail_field: DetailField) -> (r: Vec<HelpEntry>)
    ensures
        entry_views(r@) == help_listing(*mode, pane, detail_field),
{
    match mode {
        Mode::Normal => match pane {
            Pane::List => entries_of(&normal_list_bindings()),
            Pane::Detail => {
                let mut entries = entries_of(&normal_detail_bindings());
                let ghost before = entries@;
                entries.push(HelpEntry { key: owned("i"), description: detail_edit_label(detail_field) });
                assert(entry_views(entries@) =~= entry_views(before).push(
                    HelpEntryView { key: "i"@, description: edit_label(detail_field) },
                ));
                entries
            },
        },
        Mode::Insert { .. } => entries_of(&insert_bindings()),
        Mode::Confirm { .. } => entries_of(&confirm_bindings()),
        Mode::Help { .. } => Vec::new(),
    }
}

} // verus!
