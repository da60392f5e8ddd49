//! Properties of the commands and of the terminal view's actions, stated
//! over their arguments and results: what a command line asks for is what
//! the task gets, and what the view shows after an action.

use vstd::prelude::*;

use crate::cli::{add_outcome, edit_outcome, trim_end, trim_start, AddArgs, CliError, EditArgs, TaskOutput};
use crate::error::CoreError;
use crate::facade::{created, new_row, written};
use crate::ids::{uuid_from_text, TaskId};
use crate::mode::{EditableField, ModeView, PendingAction};
use crate::model::{opt_text, DeleteMode, NewTask, TaskView};
use crate::render::RowView;
use crate::store::{
    id_in_use, lemma_task_index_bounds, lemma_upsert_task, live_task, stored_row, task_row, upsert_task,
    StoreView,
};
use crate::text::hyphenated;
use crate::tui_app::{
    after_create, after_delete, confirm_spec, creation, deletion, failed, inherit_prompt, kept_rows, kept_tasks,
    parent_list, parse_pieces, reparenting, split_commas, submit_spec, title_only, tombstoned, AppView,
};

verus! {

/// A task made from a row that no id of `v` names is live after it is
/// added, as that row.
proof fn lemma_created_live(v: StoreView, n: NewTask, id: TaskId, now: crate::ids::Timestamp)
    requires
        !id_in_use(v, id),
    ensures
        task_row(created(v, n, id, now).tasks, id) == Some(new_row(n, id, now)),
        live_task(created(v, n, id, now), id) is Some,
{
    lemma_task_index_bounds(v.tasks, id);
    assert(upsert_task(v.tasks, new_row(n, id, now)) == v.tasks.push(new_row(n, id, now)));
    lemma_upsert_task(v.tasks, new_row(n, id, now), id);
}

/// `task add` makes the task the command line asks for, printing its id.
/// An option given on the command line is what the task gets, with or
/// without `--inherit`: an explicit flag always wins. With `--inherit` and
/// a live first parent, only the start date, due date and assignee left
/// unset are taken from that parent; without it (or without such a
/// parent) they are as given.
pub proof fn law_task_add_explicit_flags_win(v: StoreView, a: AddArgs, r: Result<TaskOutput, CliError>, w: StoreView)
    requires
        add_outcome(v, a, r, w),
        r is Ok,
    ensures
        r matches Ok(TaskOutput::Lines(lines)) && lines@.len() == 1 && exists|id: TaskId|
            #![trigger live_task(w, id)]
            lines@[0]@ == hyphenated(id.value) && !id_in_use(v, id) && (live_task(w, id) matches Some(t) && ({
                let first = if a.inherit && a.parent@.len() > 0 {
                    live_task(v, a.parent@[0])
                } else {
                    None
                };
                &&& t.title == a.title@
                &&& t.description == opt_text(a.description)
                &&& t.deleted_at is None
                &&& (a.start is Some ==> t.start_date == a.start)
                &&& (a.due is Some ==> t.due_date == a.due)
                &&& (a.assignee is Some ==> t.assignee_id == a.assignee)
                &&& (first matches Some(p) ==> (a.start is None ==> t.start_date == p.start_date) && (a.due is None
                    ==> t.due_date == p.due_date) && (a.assignee is None ==> t.assignee_id == p.assignee_id))
                &&& (first is None ==> t.start_date == a.start && t.due_date == a.due && t.assignee_id
                    == a.assignee)
            })),
{
    let n = crate::cli::add_request(v, a);
    if let Ok(TaskOutput::Lines(lines)) = r {
        let t = choose|t: TaskView|
            lines@[0]@ == hyphenated(t.id.value) && !id_in_use(v, t.id) && #[trigger] created(
                v,
                n,
                t.id,
                t.created_at,
            ) == w;
        lemma_created_live(v, n, t.id, t.created_at);
        assert(live_task(w, t.id) is Some);
    }
}

/// `task edit` changes exactly what its flags ask for: a value given sets
/// the field; a `--clear-*` flag without a value clears it; a field with
/// neither keeps its value.
pub proof fn law_task_edit_sets_and_clears_as_asked(v: StoreView, a: EditArgs, r: Result<TaskOutput, CliError>, w: StoreView)
    requires
        edit_outcome(v, a, r, w),
        r is Ok,
    ensures
        live_task(v, a.id) matches Some(t0) && live_task(w, a.id) matches Some(t) && ({
            &&& (a.title matches Some(s) ==> t.title == s@) && (a.title is None ==> t.title == t0.title)
            &&& (a.type_key matches Some(s) ==> t.type_key == s@) && (a.type_key is None ==> t.type_key == t0.type_key)
            &&& (a.description matches Some(s) ==> t.description == Some(s@))
            &&& (a.description is None && a.clear_description ==> t.description is None)
            &&& (a.description is None && !a.clear_description ==> t.description == t0.description)
            &&& (a.start is Some ==> t.start_date == a.start)
            &&& (a.start is None && a.clear_start ==> t.start_date is None)
            &&& (a.start is None && !a.clear_start ==> t.start_date == t0.start_date)
            &&& (a.due is Some ==> t.due_date == a.due)
            &&& (a.due is None && a.clear_due ==> t.due_date is None)
            &&& (a.due is None && !a.clear_due ==> t.due_date == t0.due_date)
            &&& (a.assignee is Some ==> t.assignee_id == a.assignee)
            &&& (a.assignee is None && a.clear_assignee ==> t.assignee_id is None)
            &&& (a.assignee is None && !a.clear_assignee ==> t.assignee_id == t0.assignee_id)
            &&& t.status == t0.status && t.created_at == t0.created_at && t.deleted_at is None
        }),
{
    let t0 = live_task(v, a.id)->0;
    let p = crate::cli::edit_patch(a);
    let x = choose|x: TaskView|
        #![trigger crate::facade::patched(t0, p, x.updated_at)]
        r matches Ok(TaskOutput::Lines(lines)) && lines@[0]@ == crate::cli::task_line(x, w.users) && w == written(
            v,
            crate::facade::patched(t0, p, x.updated_at),
        ) && (live_task(w, a.id) matches Some(y) && x == crate::facade::shown(w, y));
    let pt = crate::facade::patched(t0, p, x.updated_at);
    lemma_task_index_bounds(v.tasks, a.id);
    lemma_upsert_task(v.tasks, stored_row(pt), a.id);
    assert(task_row(w.tasks, a.id) == Some(stored_row(pt)));
}

/// Submitting a new subtask's title under `pid` either fails, leaving the
/// store as it was and showing an error, or creates a new live task under
/// the live parent `pid`. After a creation the view asks whether the
/// subtask takes over the parent's assignee and dates exactly when the
/// parent has an assignee, a start date or a due date (any one of them);
/// a parent with none of them sends the view straight back to the list.
pub proof fn law_new_subtask_asks_to_inherit(
    a: AppView,
    c0: StoreView,
    c1: StoreView,
    a1: AppView,
    pid: TaskId,
    buffer: Seq<char>,
)
    requires
        a.mode == (ModeView::Insert { field: EditableField::NewSubtaskTitle(pid), buffer }),
        submit_spec(a, c0, c1, a1),
    ensures
        c1 == c0 ==> a1.error is Some,
        c1 != c0 ==> (live_task(c0, pid) matches Some(p) && exists|child: TaskId|
            #![trigger live_task(c1, child)]
            !id_in_use(c0, child) && live_task(c1, child) is Some && ((p.assignee_id is Some || p.start_date is Some
                || p.due_date is Some) ==> a1.mode == (ModeView::Confirm {
                prompt: inherit_prompt(p.title),
                action: PendingAction::InheritFromParent { child, parent: pid },
            })) && ((p.assignee_id is None && p.start_date is None && p.due_date is None) ==> a1.mode
                == ModeView::Normal)),
{
    let (n, r) = choose|n: NewTask, r: Result<TaskView, CoreError>|
        title_only(n, buffer, seq![pid]) && #[trigger] creation(c0, c1, n, r) && a1 == after_create(
            a,
            c1,
            Some(pid),
            r,
        );
    if c1 != c0 {
        let t = r->Ok_0;
        assert(n.parent_ids@.drop_last() =~= Seq::<TaskId>::empty());
        assert(live_task(c0, pid) is Some);
        lemma_created_live(c0, n, t.id, t.created_at);
        lemma_task_index_bounds(c0.tasks, t.id);
        lemma_task_index_bounds(c0.tasks, pid);
        assert(pid != t.id);
        assert(upsert_task(c0.tasks, new_row(n, t.id, t.created_at)) == c0.tasks.push(new_row(n, t.id, t.created_at)));
        lemma_upsert_task(c0.tasks, new_row(n, t.id, t.created_at), pid);
        assert(task_row(c1.tasks, pid) == task_row(c0.tasks, pid));
        assert(live_task(c1, t.id) is Some);
    }
}

/// `ps` written out with a comma between each two pieces.
pub open spec fn joined(ps: Seq<Seq<char>>) -> Seq<char>
    decreases ps.len(),
{
    if ps.len() == 0 {
        seq![]
    } else if ps.len() == 1 {
        ps[0]
    } else {
        joined(ps.drop_last()) + seq![','] + ps.last()
    }
}

proof fn lemma_split_commas(s: Seq<char>)
    ensures
        split_commas(s).len() >= 1,
        joined(split_commas(s)) == s,
        forall|k: int, j: int|
            0 <= k < split_commas(s).len() && 0 <= j < split_commas(s)[k].len() ==> #[trigger] split_commas(s)[k][j]
                != ',',
    decreases s.len(),
{
    if s.len() > 0 {
        let r = split_commas(s.drop_last());
        lemma_split_commas(s.drop_last());
        let q = split_commas(s);
        if s.last() == ',' {
            assert(q == r.push(seq![]));
            assert(q.drop_last() =~= r);
            assert(joined(q) =~= s);
            assert forall|k: int, j: int| 0 <= k < q.len() && 0 <= j < q[k].len() implies #[trigger] q[k][j] != ',' by {
                assert(k < r.len());
                assert(q[k] == r[k]);
            }
        } else {
            assert(q == r.update(r.len() - 1, r.last().push(s.last())));
            if r.len() == 1 {
                assert(joined(q) =~= s);
            } else {
                assert(q.drop_last() =~= r.drop_last());
                assert(q.last() == r.last().push(s.last()));
                assert(joined(q) == joined(r.drop_last()) + seq![','] + q.last());
                assert(joined(r) == joined(r.drop_last()) + seq![','] + r.last());
                assert(joined(q) =~= joined(r).push(s.last()));
                assert(s =~= s.drop_last().push(s.last()));
            }
            assert forall|k: int, j: int| 0 <= k < q.len() && 0 <= j < q[k].len() implies #[trigger] q[k][j] != ',' by {
                if k < r.len() - 1 {
                    assert(q[k] == r[k]);
                } else if j < r.last().len() {
                    assert(q[k][j] == r[k][j]);
                }
            }
        }
    }
}

proof fn lemma_parse_pieces(ps: Seq<Seq<char>>)
    ensures
        parse_pieces(ps) is Some <==> forall|k: int|
            0 <= k < ps.len() ==> uuid_from_text(trim_end(trim_start(#[trigger] ps[k]))) is Some,
        parse_pieces(ps) matches Some(ids) ==> ids.len() == ps.len() && forall|k: int|
            0 <= k < ps.len() ==> #[trigger] ids[k] == (TaskId { value: uuid_from_text(trim_end(trim_start(ps[k])))->0 }),
    decreases ps.len(),
{
    if ps.len() > 0 {
        let d = ps.drop_last();
        lemma_parse_pieces(d);
        assert forall|k: int| 0 <= k < d.len() implies #[trigger] d[k] == ps[k] by {}
        if parse_pieces(ps) is None {
            if parse_pieces(d) is None {
                let k = choose|k: int| 0 <= k < d.len() && uuid_from_text(trim_end(trim_start(#[trigger] d[k]))) is None;
                assert(ps[k] == d[k]);
            } else {
                assert(uuid_from_text(trim_end(trim_start(ps[ps.len() - 1]))) is None);
            }
        } else {
            assert forall|k: int| 0 <= k < ps.len() implies uuid_from_text(trim_end(trim_start(#[trigger] ps[k]))) is Some by {
                if k < d.len() {
                    assert(d[k] == ps[k]);
                }
            }
        }
    }
}

/// Submitting the reparent line of task `id` hands `set_parents` every
/// comma-separated piece of the trimmed line read as a task id, in order
/// and one id per piece (the pieces, joined again with commas, are the
/// line; none holds a comma); a blank line hands it no parent at all. A
/// piece that is not a task id leaves the store as it was and shows the
/// error on the line.
pub proof fn law_reparent_line_reads_every_id(
    a: AppView,
    c0: StoreView,
    c1: StoreView,
    a1: AppView,
    id: TaskId,
    buffer: Seq<char>,
)
    requires
        a.mode == (ModeView::Insert { field: EditableField::Parents(id), buffer }),
        submit_spec(a, c0, c1, a1),
    ensures
        ({
            let t = trim_end(trim_start(buffer));
            let ps = split_commas(t);
            &&& t.len() == 0 ==> exists|r: Result<TaskView, CoreError>| #[trigger] reparenting(c0, c1, id, seq![], r)
            &&& t.len() > 0 ==> ps.len() >= 1 && joined(ps) == t && forall|k: int, j: int|
                0 <= k < ps.len() && 0 <= j < ps[k].len() ==> #[trigger] ps[k][j] != ','
            &&& t.len() > 0 && (forall|k: int| 0 <= k < ps.len() ==> uuid_from_text(trim_end(trim_start(#[trigger] ps[k]))) is Some)
                ==> exists|ids: Seq<TaskId>, r: Result<TaskView, CoreError>|
                #[trigger] reparenting(c0, c1, id, ids, r) && ids.len() == ps.len() && forall|k: int|
                    0 <= k < ps.len() ==> #[trigger] ids[k] == (TaskId { value: uuid_from_text(trim_end(trim_start(ps[k])))->0 })
            &&& t.len() > 0 && (exists|k: int| 0 <= k < ps.len() && uuid_from_text(trim_end(trim_start(#[trigger] ps[k]))) is None)
                ==> c1 == c0 && a1.error == Some("invalid task id in parent list"@)
        }),
{
    let t = trim_end(trim_start(buffer));
    lemma_split_commas(t);
    lemma_parse_pieces(split_commas(t));
    if t.len() == 0 {
        assert(parent_list(buffer) == Some(Seq::<TaskId>::empty()));
    }
}

proof fn lemma_tombstoned(v: Seq<TaskView>)
    ensures
        forall|x: TaskId|
            #[trigger] tombstoned(v).contains(x) <==> exists|j: int|
                0 <= j < v.len() && #[trigger] v[j].id == x && v[j].deleted_at is Some,
    decreases v.len(),
{
    if v.len() > 0 {
        let d = v.drop_last();
        let td = tombstoned(d);
        lemma_tombstoned(d);
        assert forall|x: TaskId| #[trigger] tombstoned(v).contains(x) <==> exists|j: int|
            0 <= j < v.len() && #[trigger] v[j].id == x && v[j].deleted_at is Some by {
            if td.contains(x) {
                let j = choose|j: int| 0 <= j < d.len() && #[trigger] d[j].id == x && d[j].deleted_at is Some;
                assert(v[j] == d[j]);
            }
            if exists|j: int| 0 <= j < v.len() && #[trigger] v[j].id == x && v[j].deleted_at is Some {
                let j = choose|j: int| 0 <= j < v.len() && #[trigger] v[j].id == x && v[j].deleted_at is Some;
                if j < d.len() {
                    assert(d[j] == v[j]);
                    assert(td.contains(x));
                }
            }
            if v.last().deleted_at is Some {
                assert(tombstoned(v) == td.push(v.last().id));
                if td.contains(x) {
                    let i = choose|i: int| 0 <= i < td.len() && td[i] == x;
                    assert(td.push(v.last().id)[i] == x);
                }
                if td.push(v.last().id).contains(x) && x != v.last().id {
                    let i = choose|i: int| 0 <= i < td.len() + 1 && td.push(v.last().id)[i] == x;
                    assert(td[i] == x);
                }
                assert(td.push(v.last().id)[td.len() as int] == v.last().id);
            } else {
                assert(tombstoned(v) == td);
            }
        }
    }
}

proof fn lemma_kept_rows(rows: Seq<RowView>, gone: Seq<TaskId>)
    ensures
        forall|r: RowView| #[trigger] kept_rows(rows, gone).contains(r) <==> rows.contains(r) && !gone.contains(r.id),
    decreases rows.len(),
{
    if rows.len() > 0 {
        let d = rows.drop_last();
        lemma_kept_rows(d, gone);
        assert forall|r: RowView| #[trigger] kept_rows(rows, gone).contains(r) <==> rows.contains(r) && !gone.contains(r.id) by {
            let k = kept_rows(d, gone);
            if rows.contains(r) && r != rows.last() {
                let i = choose|i: int| 0 <= i < rows.len() && rows[i] == r;
                assert(d[i] == r);
            }
            if d.contains(r) {
                let i = choose|i: int| 0 <= i < d.len() && d[i] == r;
                assert(rows[i] == r);
            }
            if !gone.contains(rows.last().id) {
                assert(kept_rows(rows, gone) == k.push(rows.last()));
                if k.contains(r) {
                    let i = choose|i: int| 0 <= i < k.len() && k[i] == r;
                    assert(k.push(rows.last())[i] == r);
                }
                if k.push(rows.last()).contains(r) && r != rows.last() {
                    let i = choose|i: int| 0 <= i < k.len() + 1 && k.push(rows.last())[i] == r;
                    assert(k[i] == r);
                }
                assert(k.push(rows.last())[k.len() as int] == rows.last());
            }
        }
    }
}

proof fn lemma_kept_tasks(ts: Seq<TaskView>, gone: Seq<TaskId>)
    ensures
        forall|t: TaskView| #[trigger] kept_tasks(ts, gone).contains(t) ==> !gone.contains(t.id),
    decreases ts.len(),
{
    if ts.len() > 0 {
        let d = ts.drop_last();
        let last = ts.last();
        lemma_kept_tasks(d, gone);
        let k = kept_tasks(d, gone);
        if gone.contains(last.id) {
            assert(kept_tasks(ts, gone) == k);
        } else {
            let kk = k.push(last);
            assert(kept_tasks(ts, gone) == kk);
            assert forall|t: TaskView| #[trigger] kk.contains(t) implies !gone.contains(t.id) by {
                let i = choose|i: int| 0 <= i < kk.len() && kk[i] == t;
                if i < k.len() {
                    assert(k[i] == t);
                    assert(k.contains(t));
                }
            }
        }
    }
}

/// Confirming the delete of task `id` deletes it with its subtree; a task
/// that is not live is answered with an error and nothing changes. After a
/// delete no row of the list, and no task the view holds, is one the
/// delete soft-deleted, every other row stays, and the view is back in
/// `Normal` without an error.
pub proof fn law_confirmed_delete_drops_every_deleted_row(
    a: AppView,
    c0: StoreView,
    c1: StoreView,
    a1: AppView,
    prompt: Seq<char>,
    id: TaskId,
)
    requires
        a.mode == (ModeView::Confirm { prompt, action: PendingAction::Delete(id) }),
        confirm_spec(a, c0, c1, a1),
    ensures
        live_task(c0, id) is None ==> c1 == c0 && a1.error is Some && a1.mode == ModeView::Normal,
        live_task(c0, id) is Some ==> exists|v: Seq<TaskView>|
            #[trigger] deletion(c0, c1, id, DeleteMode::Subtree, Ok(v)) && a1.mode == ModeView::Normal && a1.error
                is None && (forall|j: int, k: int|
                0 <= j < v.len() && v[j].deleted_at is Some && 0 <= k < a1.rows.len() ==> #[trigger] a1.rows[k].id
                    != #[trigger] v[j].id) && (forall|j: int, k: int|
                0 <= j < v.len() && v[j].deleted_at is Some && 0 <= k < a1.tasks.len() ==> #[trigger] a1.tasks[k].id
                    != #[trigger] v[j].id) && (forall|k: int|
                0 <= k < a.rows.len() && (forall|j: int| 0 <= j < v.len() && v[j].deleted_at is Some ==> v[j].id
                    != #[trigger] a.rows[k].id) ==> a1.rows.contains(#[trigger] a.rows[k])),
{
    let r = choose|r: Result<Seq<TaskView>, CoreError>|
        deletion(c0, c1, id, DeleteMode::Subtree, r) && a1 == match r {
            Ok(v) => after_delete(a, v),
            Err(e) => AppView { mode: ModeView::Normal, ..failed(a, e) },
        };
    if live_task(c0, id) is Some {
        let v = r->Ok_0;
        let gone = tombstoned(v);
        lemma_tombstoned(v);
        lemma_kept_rows(a.rows, gone);
        lemma_kept_tasks(a.tasks, gone);
        assert forall|j: int, k: int|
            0 <= j < v.len() && v[j].deleted_at is Some && 0 <= k < a1.rows.len() implies #[trigger] a1.rows[k].id
                != #[trigger] v[j].id by {
            assert(a1.rows.contains(a1.rows[k]));
            assert(gone.contains(v[j].id));
        }
        assert forall|j: int, k: int|
            0 <= j < v.len() && v[j].deleted_at is Some && 0 <= k < a1.tasks.len() implies #[trigger] a1.tasks[k].id
                != #[trigger] v[j].id by {
            assert(a1.tasks.contains(a1.tasks[k]));
            assert(gone.contains(v[j].id));
        }
        assert forall|k: int|
            0 <= k < a.rows.len() && (forall|j: int| 0 <= j < v.len() && v[j].deleted_at is Some ==> v[j].id
                != #[trigger] a.rows[k].id) implies a1.rows.contains(#[trigger] a.rows[k]) by {
            assert(a.rows.contains(a.rows[k]));
            assert(!gone.contains(a.rows[k].id));
        }
        assert(deletion(c0, c1, id, DeleteMode::Subtree, Ok(v)));
    }
}

} // verus!
