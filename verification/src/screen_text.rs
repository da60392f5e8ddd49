//! The texts the terminal screens show: one line per task row, the edit
//! line, the help overlay's lines and the Detail pane's fields. Drawing
//! them (layout, colors, highlighting) is left to the terminal front end.

use vstd::prelude::*;

use crate::keymap::{entry_views, help_entries, help_listing, HelpEntryView};
use crate::mode::{DetailField, EditableField, Mode, Pane};
use crate::model::TaskStatus;
use crate::render::{RowView, TaskRow};
use crate::text::{append_text, decimal, owned, push_char};

verus! {

/// Rows deeper than this are indented as deep as this: indenting each row
/// by its full depth would cost time quadratic in the depth of a chain.
pub const MAX_INDENT_DEPTH: usize = 40;

/// `n` copies of two spaces.
pub open spec fn indent(n: nat) -> Seq<char>
    decreases n,
{
    if n == 0 {
        seq![]
    } else {
        indent((n - 1) as nat) + "  "@
    }
}

/// A row as the list shows it:
/// `"{indent}{glyph}[{marker}] {title}{summary}  [{type}]  {assignee}"`. The
/// indent is two spaces per level, at most `MAX_INDENT_DEPTH` levels; the
/// glyph `▸` for a collapsed row, `▾` for an expanded one with children,
/// else a space; the marker `x` for a complete task; the summary
/// ` ({complete}/{total})` of a collapsed row with children; the assignee's
/// name, or `Unassigned`.
pub open spec fn row_line(r: RowView) -> Seq<char> {
    indent(if r.depth < MAX_INDENT_DEPTH { r.depth as nat } else { MAX_INDENT_DEPTH as nat })
        + seq![
        if r.collapsed {
            '▸'
        } else if r.has_children {
            '▾'
        } else {
            ' '
        },
    ] + "["@ + seq![if r.status == TaskStatus::Complete { 'x' } else { ' ' }] + "] "@ + r.title
        + match r.direct_summary {
        Some((c, t)) => " ("@ + decimal(c) + "/"@ + decimal(t) + ")"@,
        None => ""@,
    } + "  ["@ + r.type_label + "]  "@ + match r.assignee_name {
        Some(n) => n,
        None => "Unassigned"@,
    }
}

/// The line the list shows for `row` (see `row_line`).
pub fn row_line_text(row: &TaskRow) -> (s: String)
    ensures
        s@ == row_line(row@),
{
    let levels = if row.depth < MAX_INDENT_DEPTH {
        row.depth
    } else {
        MAX_INDENT_DEPTH
    };
    let mut s = String::new();
    let mut i: usize = 0;
    assert(s@ =~= indent(0));
    while i < levels
        invariant
            i <= levels,
            s@ == indent(i as nat),
        decreases levels - i,
    {
        append_text(&mut s, "  ");
        i = i + 1;
    }
    let glyph = if row.collapsed {
        '▸'
    } else if row.has_children {
        '▾'
    } else {
        ' '
    };
    push_char(&mut s, glyph);
    append_text(&mut s, "[");
    push_char(
        &mut s,
        if row.status == TaskStatus::Complete {
            'x'
        } else {
            ' '
        },
    );
    append_text(&mut s, "] ");
    append_text(&mut s, row.title.as_str());
    let ghost before_summary = s@;
    match row.direct_summary {
        Some((c, t)) => {
            append_text(&mut s, " (");
            let ct = crate::text::count_text(c);
            append_text(&mut s, ct.as_str());
            append_text(&mut s, "/");
            let tt = crate::text::count_text(t);
            append_text(&mut s, tt.as_str());
            append_text(&mut s, ")");
        },
        None => {
            proof {
                reveal_strlit("");
            }
            assert(s@ =~= before_summary + ""@);
        },
    }
    append_text(&mut s, "  [");
    append_text(&mut s, row.type_label.as_str());
    append_text(&mut s, "]  ");
    match &row.assignee_name {
        Some(n) => append_text(&mut s, n.as_str()),
        None => append_text(&mut s, "Unassigned"),
    }
    assert(s@ =~= row_line(row@));
    s
}

/// The label of the edit line for `field`.
pub open spec fn field_label(field: EditableField) -> Seq<char> {
    match field {
        EditableField::NewTitle => "New task"@,
        EditableField::Title(_) => "Title"@,
        EditableField::Description(_) => "Description"@,
        EditableField::NewSubtaskTitle(_) => "New subtask"@,
        EditableField::Parents(_) => "Parents (comma-separated ids)"@,
        EditableField::TypeKey(_) => "Type"@,
    }
}

/// The edit line: `"{label}: {buffer}_"`.
pub open spec fn insert_line(field: EditableField, buffer: Seq<char>) -> Seq<char> {
    field_label(field) + ": "@ + buffer + "_"@
}

/// The edit line for `field` holding `buffer` (see `insert_line`).
pub fn insert_line_text(field: EditableField, buffer: &str) -> (s: String)
    ensures
        s@ == insert_line(field, buffer@),
{
    let mut s = match field {
        EditableField::NewTitle => owned("New task"),
        EditableField::Title(_) => owned("Title"),
        EditableField::Description(_) => owned("Description"),
        EditableField::NewSubtaskTitle(_) => owned("New subtask"),
        EditableField::Parents(_) => owned("Parents (comma-separated ids)"),
        EditableField::TypeKey(_) => owned("Type"),
    };
    append_text(&mut s, ": ");
    append_text(&mut s, buffer);
    append_text(&mut s, "_");
    s
}

/// One help line: `"{key} — {description}"`.
pub open spec fn help_line(e: HelpEntryView) -> Seq<char> {
    e.key + " — "@ + e.description
}

/// The lines of the help overlay opened from `mode` in `pane` with the
/// Detail cursor on `field`: one per binding, then `Esc — close help`.
pub open spec fn help_overlay(mode: Mode, pane: Pane, field: DetailField) -> Seq<Seq<char>> {
    help_listing(mode, pane, field).map_values(|e: HelpEntryView| help_line(e)).push(
        "Esc — close help"@,
    )
}

/// The lines of the help overlay (see `help_overlay`).
pub fn help_overlay_lines(mode: &Mode, pane: Pane, field: DetailField) -> (r: Vec<String>)
    ensures
        r@.map_values(|s: String| s@) == help_overlay(*mode, pane, field),
{
    let entries = help_entries(mode, pane, field);
    let ghost ev = entry_views(entries@);
    let mut r: Vec<String> = Vec::new();
    let mut i: usize = 0;
    while i < entries.len()
        invariant
            i <= entries.len(),
            ev == entry_views(entries@),
            ev == help_listing(*mode, pane, field),
            r@.map_values(|s: String| s@) == ev.subrange(0, i as int).map_values(
                |e: HelpEntryView| help_line(e),
            ),
        decreases entries.len() - i,
    {
        let mut line = entries[i].key.clone();
        append_text(&mut line, " — ");
        append_text(&mut line, entries[i].description.as_str());
        let ghost before = r@;
        r.push(line);
        proof {
            crate::store::lemma_map_push(before, line, |s: String| s@);
            crate::store::lemma_map_push(ev.subrange(0, i as int), ev[i as int], |e: HelpEntryView| help_line(e));
            assert(ev.subrange(0, i + 1) =~= ev.subrange(0, i as int).push(ev[i as int]));
        }
        i = i + 1;
    }
    assert(ev.subrange(0, entries.len() as int) =~= ev);
    let ghost before = r@;
    let last = owned("Esc — close help");
    r.push(last);
    proof {
        crate::store::lemma_map_push(before, last, |s: String| s@);
    }
    r
}

/// The Detail pane's two lines: `"Title: {title}"` and
/// `"Description: {description}"`.
pub fn detail_lines(title: &str, description: Option<&str>) -> (r: (String, String))
    ensures
        r.0@ == "Title: "@ + title@,
        r.1@ == "Description: "@ + match description {
            Some(d) => d@,
            None => ""@,
        },
{
    let mut t = owned("Title: ");
    append_text(&mut t, title);
    let mut d = owned("Description: ");
    match description {
        Some(x) => append_text(&mut d, x),
        None => {
            proof {
                reveal_strlit("");
            }
            assert(d@ =~= "Description: "@ + ""@);
        },
    }
    (t, d)
}

} // verus!
