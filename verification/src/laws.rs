//! Properties of the library as a whole, over the specifications the
//! `Core` methods' contracts are written in.

use vstd::prelude::*;

use crate::facade::{
    completed_state, delete_touched, deleted_state, doom_closed, lemma_merge_ids, lemma_without, merge_ids, promoted_edges, reparented_edges, wanted_ids, without, in_subtree, is_down_path, open_descendants, patch_text, patched, doomed, is_open, mark_rows, promote_spared, seeded,
    spared, stripped, subtree_deleted, to_complete, tomb_fn, touch_fn, written,
};
use crate::ids::{day_number, days_before_month, is_calendar_date, is_leap_year, month_length, TaskId, Timestamp};
use crate::keymap::Action;
use crate::mode::{ModeView, PendingAction};
use crate::render::{
    all_rows, child_of, complete_among, count_of, fallback, hidden_under, is_root, kids, kids_upto, roots_from,
    root_walk, row_of, seen, walk, walk_from, Lookups, RowView,
};
use crate::tui_app::{action_spec, delete_prompt, rebuilt, row_pos, sel_id, sel_row, AppView};
use crate::model::{filter_admits, DeleteMode, Parents, Placement, Progress, TaskPatch, TaskStatus, TaskView, TreeFilter};
use crate::rollup::{lemma_count_complete_bound, rollup};
use crate::store::{
    any_task, children_in, edge_in, lemma_children_in_contains, store_valid, insert_edge, lemma_add_edges, lemma_replaced_edges, replaced_edges, wanted_parents, add_edges, lemma_parents_in_contains, lemma_prune, parents_in, prune, Edge, lemma_task_index_bounds, lemma_type_index_bounds, type_row, lemma_upsert_task, lemma_upsert_type_found, listed,
    live_task, read_row, stored_row, task_row, StoreView,
};

verus! {

/// Seeding the default task type twice is seeding it once: building a
/// `Core` over a store that already has the `"task"` type leaves the store
/// as it is.
pub proof fn law_seeding_is_idempotent(v: StoreView)
    ensures
        seeded(seeded(v)) == seeded(v),
{
    if !(crate::store::type_row(v.types, "task"@) is Some) {
        lemma_upsert_type_found(v.types, crate::facade::default_type());
    }
}

/// No two rows of a type table share `key`.
pub open spec fn key_once(rows: Seq<crate::model::TaskTypeView>, key: Seq<char>) -> bool {
    forall|i: int, j: int|
        0 <= i < rows.len() && 0 <= j < rows.len() && #[trigger] rows[i].key == key && #[trigger] rows[j].key == key
            ==> i == j
}

/// Building a `Core` over a store leaves exactly one `task` type: the one
/// already there, unchanged, or else the default `task` type. Every store
/// keeps its type keys unique (`store_valid`, which `Core::new` and
/// `Core::store` state of every store they hold), and seeding keeps them so.
pub proof fn law_exactly_one_task_type(v: StoreView)
    requires
        store_valid(v),
    ensures
        store_valid(seeded(v)),
        key_once(seeded(v).types, "task"@),
        type_row(seeded(v).types, "task"@) == Some(
            match type_row(v.types, "task"@) {
                Some(t) => t,
                None => crate::facade::default_type(),
            },
        ),
{
    lemma_type_index_bounds(v.types, "task"@);
    if !(type_row(v.types, "task"@) is Some) {
        let d = crate::facade::default_type();
        assert(d.key == "task"@);
        lemma_upsert_type_found(v.types, d);
        crate::store::lemma_upsert_type_unique(v.types, d);
        let after = seeded(v).types;
        assert(after == v.types.push(d));
        assert forall|i: int, j: int|
            0 <= i < after.len() && 0 <= j < after.len() && #[trigger] after[i].key == "task"@
                && #[trigger] after[j].key == "task"@ implies i == j by {
            if i < v.types.len() {
                assert(after[i] == v.types[i]);
            }
            if j < v.types.len() {
                assert(after[j] == v.types[j]);
            }
        }
    }
}

/// Without `include_deleted`, a listing never shows a soft-deleted task.
pub proof fn law_listing_hides_deleted(tasks: Seq<TaskView>, es: Seq<crate::store::Edge>, f: TreeFilter)
    requires
        !f.include_deleted,
    ensures
        forall|i: int| 0 <= i < listed(tasks, es, f).len() ==> #[trigger] listed(tasks, es, f)[i].deleted_at is None,
    decreases tasks.len(),
{
    if tasks.len() > 0 {
        law_listing_hides_deleted(tasks.drop_last(), es, f);
        let rest = listed(tasks.drop_last(), es, f);
        if filter_admits(f, tasks.last()) {
            assert forall|i: int| 0 <= i < listed(tasks, es, f).len() implies #[trigger] listed(
                tasks,
                es,
                f,
            )[i].deleted_at is None by {
                if i < rest.len() {
                    assert(listed(tasks, es, f)[i] == rest[i]);
                }
            }
        }
    }
}

/// A task's progress counts only its direct children's own status: once it
/// has children its own status plays no part, and the fraction never
/// exceeds one. A task without children counts itself.
pub proof fn law_rollup_reads_direct_children_only(children: Seq<TaskView>, a: TaskStatus, b: TaskStatus)
    requires
        children.len() <= u64::MAX,
    ensures
        children.len() > 0 ==> rollup(children, a) == rollup(children, b),
        rollup(children, a).complete <= rollup(children, a).total,
        rollup(children, a).total >= 1,
        children.len() == 0 ==> rollup(children, TaskStatus::Complete) == (Progress { complete: 1, total: 1 }),
        children.len() == 0 ==> rollup(children, TaskStatus::Incomplete) == (Progress { complete: 0, total: 1 }),
{
    lemma_count_complete_bound(children);
}

/// The set a subtree delete soft-deletes is itself closed: every task with
/// a row all of whose parents it holds is in it.
pub proof fn law_doomed_is_closed(v: StoreView, id: TaskId)
    ensures
        doom_closed(v, id, doomed(v, id)),
{
    let d = doomed(v, id);
    assert forall|x: TaskId| any_task(v, x) is Some && #[trigger] stripped(v.edges, d, x) implies d.contains(x) by {
        assert forall|s: Set<TaskId>| #[trigger] doom_closed(v, id, s) implies s.contains(x) by {
            assert forall|p: TaskId| #[trigger] edge_in(v.edges, Some(p), x) implies s.contains(p) by {
                assert(d.contains(p));
            }
            assert(stripped(v.edges, s, x));
        }
    }
}

/// Deleting a task with its subtree never deletes a task that still sits
/// under a parent the delete does not take: a child shared with another
/// live goal survives.
pub proof fn law_shared_child_survives(v: StoreView, id: TaskId, x: TaskId, q: TaskId)
    requires
        x != id,
        edge_in(v.edges, Some(q), x),
        !doomed(v, id).contains(q),
    ensures
        !doomed(v, id).contains(x),
{
    let d = doomed(v, id);
    law_doomed_is_closed(v, id);
    if d.contains(x) {
        let s = d.remove(x);
        assert(doom_closed(v, id, s)) by {
            assert forall|y: TaskId| any_task(v, y) is Some && #[trigger] stripped(v.edges, s, y) implies s.contains(y) by {
                assert forall|p: TaskId| #[trigger] edge_in(v.edges, Some(p), y) implies d.contains(p) by {
                    assert(s.contains(p));
                }
                assert(stripped(v.edges, d, y));
                if y == x {
                    assert(s.contains(q));
                }
            }
        }
        assert(s.contains(x));
    }
}

/// After a subtree delete, every task it takes is soft-deleted at the
/// delete's time, and every spared child is still live.
pub proof fn law_subtree_delete_outcome(v: StoreView, id: TaskId, now: Timestamp, x: TaskId)
    requires
        forall|y: TaskId| doomed(v, id).contains(y) ==> any_task(v, y) is Some,
    ensures
        doomed(v, id).contains(x) ==> (any_task(subtree_deleted(v, id, now), x) matches Some(t)
            && t.deleted_at == Some(now)),
        spared(v, id).contains(x) ==> live_task(subtree_deleted(v, id, now), x) is Some,
{
    let d = doomed(v, id);
    let sp = spared(v, id);
    let rows1 = mark_rows(v.tasks, d, tomb_fn(now));
    let rows2 = mark_rows(rows1, sp, touch_fn(now));
    lemma_task_index_bounds(v.tasks, x);
    crate::facade::lemma_mark_rows_ids(v.tasks, d, tomb_fn(now), x);
    crate::facade::lemma_mark_rows_ids(rows1, sp, touch_fn(now), x);
    if d.contains(x) {
        assert(!sp.contains(x));
    }
    if sp.contains(x) {
        assert(!d.contains(x));
    }
}

/// Restoring a deleted task undoes its delete: in either delete mode, the
/// task is live again and its stored row is back as it was before the
/// delete, save its `updated_at`.
pub proof fn law_restore_undoes_delete(
    v: StoreView,
    id: TaskId,
    mode: DeleteMode,
    now: Timestamp,
    later: Timestamp,
)
    requires
        live_task(v, id) is Some,
    ensures
        any_task(deleted_state(v, id, mode, now), id) is Some,
        ({
            let d = deleted_state(v, id, mode, now);
            let w = written(d, TaskView { deleted_at: None, updated_at: later, ..any_task(d, id)->0 });
            &&& live_task(w, id) is Some
            &&& task_row(w.tasks, id) == Some(
                stored_row(TaskView { updated_at: later, ..task_row(v.tasks, id)->0 }),
            )
        }),
{
    let d = deleted_state(v, id, mode, now);
    lemma_task_index_bounds(v.tasks, id);
    let (first, second) = match mode {
        DeleteMode::Subtree => (doomed(v, id), spared(v, id)),
        DeleteMode::PromoteChildren => (set![id], promote_spared(v, id)),
    };
    assert(first.contains(id));
    assert(!second.contains(id));
    let rows1 = mark_rows(v.tasks, first, tomb_fn(now));
    crate::facade::lemma_mark_rows_ids(v.tasks, first, tomb_fn(now), id);
    crate::facade::lemma_mark_rows_ids(rows1, second, touch_fn(now), id);
    assert(d.tasks == mark_rows(rows1, second, touch_fn(now)));
    let t = any_task(d, id)->0;
    let back = TaskView { deleted_at: None, updated_at: later, ..t };
    lemma_upsert_task(d.tasks, stored_row(back), id);
    assert(stored_row(back) == stored_row(TaskView { updated_at: later, ..task_row(v.tasks, id)->0 }));
}

/// Reopening a task just completed (without cascade) undoes the
/// completion: the task is live and its stored row is back as it was,
/// save its `updated_at`, when it carried no completion time before.
pub proof fn law_reopen_undoes_complete(v: StoreView, id: TaskId, now: Timestamp, later: Timestamp)
    requires
        is_open(v, id),
        task_row(v.tasks, id)->0.completed_at is None,
    ensures
        live_task(completed_state(v, to_complete(v, id, false), now), id) is Some,
        ({
            let c = completed_state(v, to_complete(v, id, false), now);
            let w = written(
                c,
                TaskView {
                    status: TaskStatus::Incomplete,
                    completed_at: None,
                    updated_at: later,
                    ..live_task(c, id)->0
                },
            );
            &&& live_task(w, id) is Some
            &&& task_row(w.tasks, id) == Some(
                stored_row(TaskView { updated_at: later, ..task_row(v.tasks, id)->0 }),
            )
        }),
{
    let s = to_complete(v, id, false);
    let c = completed_state(v, s, now);
    lemma_task_index_bounds(v.tasks, id);
    crate::facade::lemma_complete_rows_lookup(v, s, now, id);
    let t = live_task(c, id)->0;
    let back = TaskView { status: TaskStatus::Incomplete, completed_at: None, updated_at: later, ..t };
    lemma_upsert_task(c.tasks, stored_row(back), id);
    assert(stored_row(back) == stored_row(TaskView { updated_at: later, ..task_row(v.tasks, id)->0 }));
}

/// Editing a task changes that task alone: every other task's row and
/// every parent edge stay as they were, so a subtask's dates never move
/// with its parent's; and an edit that only sets the type changes nothing
/// of the task but its type and `updated_at`.
pub proof fn law_edit_changes_only_the_task(v: StoreView, t: TaskView, p: TaskPatch, now: Timestamp, x: TaskId)
    requires
        live_task(v, t.id) == Some(t),
        x != t.id,
    ensures
        task_row(written(v, patched(t, p, now)).tasks, x) == task_row(v.tasks, x),
        written(v, patched(t, p, now)).edges == v.edges,
        p.title is Keep && p.description is Keep && p.start_date is Keep && p.due_date is Keep
            && p.assignee_id is Keep ==> patched(t, p, now) == (TaskView {
            type_key: patch_text(t.type_key, p.type_key),
            updated_at: now,
            ..t
        }),
{
    lemma_upsert_task(v.tasks, stored_row(patched(t, p, now)), x);
}

/// Completing a task that is already complete, without cascade, changes
/// nothing.
pub proof fn law_completing_twice_is_a_no_op(v: StoreView, id: TaskId, now: Timestamp)
    requires
        live_task(v, id) matches Some(t) && t.status == TaskStatus::Complete,
    ensures
        to_complete(v, id, false) == Set::<TaskId>::empty(),
        completed_state(v, to_complete(v, id, false), now) == v,
{
    assert(!is_open(v, id));
    assert(crate::facade::complete_rows(v.tasks, Set::<TaskId>::empty(), now) =~= v.tasks);
}

/// Completing a task a second time, without cascade, right after it was
/// completed without cascade, is answered with success and changes
/// nothing: completing it did not open anything under it, so nothing
/// blocks the second call, and the task is already complete.
pub proof fn law_second_completion_is_a_no_op(v: StoreView, id: TaskId, now: Timestamp, later: Timestamp)
    requires
        live_task(v, id) is Some,
        open_descendants(v, id) == Set::<TaskId>::empty(),
    ensures
        ({
            let c = completed_state(v, to_complete(v, id, false), now);
            &&& live_task(c, id) is Some
            &&& open_descendants(c, id) == Set::<TaskId>::empty()
            &&& to_complete(c, id, false) == Set::<TaskId>::empty()
            &&& completed_state(c, to_complete(c, id, false), later) == c
        }),
{
    let s = to_complete(v, id, false);
    let c = completed_state(v, s, now);
    lemma_task_index_bounds(v.tasks, id);
    crate::facade::lemma_complete_rows_lookup(v, s, now, id);
    assert(live_task(c, id)->0.status == TaskStatus::Complete);
    assert forall|x: TaskId| x != id && #[trigger] in_subtree(c, id, x) implies !is_open(c, x) by {
        let p = choose|p: Seq<TaskId>| #[trigger] is_down_path(c, p) && p[0] == id && p.last() == x;
        assert forall|k: int| 0 <= k < p.len() implies #[trigger] live_task(v, p[k]) is Some by {
            crate::facade::lemma_complete_rows_lookup(v, s, now, p[k]);
        }
        assert(is_down_path(v, p));
        assert(in_subtree(v, id, x));
        crate::facade::lemma_complete_rows_lookup(v, s, now, x);
        if is_open(c, x) {
            assert(!s.contains(x));
            assert(is_open(v, x));
            assert(to_complete(v, id, true).contains(x));
            assert(open_descendants(v, id).contains(x));
        }
    }
    assert(open_descendants(c, id) =~= Set::<TaskId>::empty());
    law_completing_twice_is_a_no_op(c, id, later);
}

/// Opening the help overlay and closing it again returns to the mode it
/// was opened from.
pub proof fn law_help_round_trip(
    a0: AppView,
    a1: AppView,
    a2: AppView,
    c0: StoreView,
    c1: StoreView,
    c2: StoreView,
    f1: core::ops::ControlFlow<(), ()>,
    f2: core::ops::ControlFlow<(), ()>,
)
    requires
        action_spec(a0, c0, c1, Action::OpenHelp, a1, f1),
        action_spec(a1, c1, c2, Action::CloseHelp, a2, f2),
    ensures
        a2.mode == a0.mode,
        c2 == c0,
{
}

/// Two `d` presses in a row on a selected row ask to delete that task.
pub proof fn law_dd_asks_to_delete(
    a0: AppView,
    a1: AppView,
    a2: AppView,
    c0: StoreView,
    c1: StoreView,
    c2: StoreView,
    f1: core::ops::ControlFlow<(), ()>,
    f2: core::ops::ControlFlow<(), ()>,
)
    requires
        action_spec(a0, c0, c1, Action::DKeyPressed, a1, f1),
        action_spec(a1, c1, c2, Action::DKeyPressed, a2, f2),
        !a0.pending_d,
        sel_row(a0) is Some,
    ensures
        a2.mode == (ModeView::Confirm {
            prompt: delete_prompt(sel_row(a0)->0.title),
            action: PendingAction::Delete(sel_row(a0)->0.id),
        }),
        c2 == c0,
{
}

/// A `d` counts towards `dd` only right after another `d`: after any other
/// action, a `d` only waits for the next one and changes nothing else.
pub proof fn law_other_action_resets_d(
    a0: AppView,
    a1: AppView,
    a2: AppView,
    c0: StoreView,
    c1: StoreView,
    c2: StoreView,
    action: Action,
    f1: core::ops::ControlFlow<(), ()>,
    f2: core::ops::ControlFlow<(), ()>,
)
    requires
        action != Action::DKeyPressed,
        action_spec(a0, c0, c1, action, a1, f1),
        action_spec(a1, c1, c2, Action::DKeyPressed, a2, f2),
    ensures
        a2 == (AppView { pending_d: true, ..a1 }),
        c2 == c1,
{
    lemma_step_clears_d(a0, c0, c1, action, a1, f1);
}

/// Every action but `d` leaves no `d` waiting.
proof fn lemma_step_clears_d(
    a0: AppView,
    c0: StoreView,
    c1: StoreView,
    action: Action,
    a1: AppView,
    f1: core::ops::ControlFlow<(), ()>,
)
    requires
        action != Action::DKeyPressed,
        action_spec(a0, c0, c1, action, a1, f1),
    ensures
        !a1.pending_d,
{
}

/// `b` is shown in `rows` or hidden under one of its collapsed rows, and
/// stays so when more rows follow.
proof fn lemma_seen_grows(ts: Seq<TaskView>, rows: Seq<RowView>, more: Seq<RowView>, b: TaskId)
    requires
        seen(ts, rows, b),
    ensures
        seen(ts, rows + more, b),
{
    let all = rows + more;
    let ids = rows.map_values(|r: RowView| r.id);
    if ids.contains(b) {
        let k = choose|k: int| 0 <= k < ids.len() && #[trigger] ids[k] == b;
        assert(all.map_values(|r: RowView| r.id)[k] == b);
    } else {
        let k = choose|k: int| 0 <= k < rows.len() && #[trigger] rows[k].collapsed && crate::render::below(ts, rows[k].id, b);
        assert(all[k] == rows[k]);
        assert(hidden_under(ts, all, b));
    }
}

/// After the fallback walks from tasks `i..`, each of those tasks is shown
/// or hidden.
proof fn lemma_fallback_sees(ts: Seq<TaskView>, lk: Lookups, i: int, rows: Seq<RowView>, k: int)
    requires
        0 <= i <= k < ts.len(),
    ensures
        seen(ts, rows + fallback(ts, lk, i, rows), ts[k].id),
    decreases ts.len() - i,
{
    let rest = fallback(ts, lk, i, rows);
    if seen(ts, rows, ts[i].id) {
        if k == i {
            lemma_seen_grows(ts, rows, rest, ts[k].id);
        } else {
            lemma_fallback_sees(ts, lk, i + 1, rows, k);
        }
    } else {
        let w = root_walk(ts, lk, i);
        let r2 = rows + w;
        assert(rest == w + fallback(ts, lk, i + 1, r2));
        assert(rows + rest =~= r2 + fallback(ts, lk, i + 1, r2));
        if k == i {
            assert(w == walk(ts, lk, i, 0, seq![], (ts.len() + 1) as nat));
            assert(w[0] == row_of(ts, lk, i, 0));
            let all = rows + rest;
            assert(all[rows.len() as int] == w[0]);
            assert(all.map_values(|r: RowView| r.id)[rows.len() as int] == ts[i].id);
            assert(seen(ts, all, ts[k].id));
        } else {
            lemma_fallback_sees(ts, lk, i + 1, r2, k);
        }
    }
}

/// No task silently disappears from the task list: every task is shown in
/// a row or hidden under a collapsed one, even when the parents form a
/// cycle and no task is a root.
pub proof fn law_every_task_is_listed_or_hidden(ts: Seq<TaskView>, lk: Lookups, k: int)
    requires
        0 <= k < ts.len(),
    ensures
        seen(ts, all_rows(ts, lk), ts[k].id),
{
    lemma_fallback_sees(ts, lk, 0, roots_from(ts, lk, 0), k);
}

/// Every row is the row of one of the tasks, at some depth.
pub open spec fn rows_of_tasks(ts: Seq<TaskView>, lk: Lookups, rows: Seq<RowView>) -> bool {
    forall|k: int|
        #![trigger rows[k]]
        0 <= k < rows.len() ==> exists|i: int, d: int|
            #![trigger row_of(ts, lk, i, d)]
            0 <= i < ts.len() && rows[k] == row_of(ts, lk, i, d)
}

/// A collapsed row is never followed by a deeper one: what follows it is
/// a sibling, or lies higher up.
pub open spec fn collapsed_closed(rows: Seq<RowView>) -> bool {
    forall|k: int| 0 <= k < rows.len() - 1 && #[trigger] rows[k].collapsed ==> rows[k + 1].depth <= rows[k].depth
}

/// The rows of a walk at `d`: none above `d`, the first at `d`, and closed
/// after collapsed rows.
pub open spec fn walk_shaped(ts: Seq<TaskView>, lk: Lookups, rows: Seq<RowView>, d: int) -> bool {
    &&& rows_of_tasks(ts, lk, rows)
    &&& forall|k: int| 0 <= k < rows.len() ==> #[trigger] rows[k].depth >= d
    &&& rows.len() > 0 ==> rows[0].depth == d
    &&& collapsed_closed(rows)
}

proof fn lemma_rows_concat(ts: Seq<TaskView>, lk: Lookups, a: Seq<RowView>, b: Seq<RowView>, d: int)
    requires
        walk_shaped(ts, lk, a, d),
        forall|k: int| 0 <= k < b.len() ==> #[trigger] b[k].depth >= d,
        rows_of_tasks(ts, lk, b),
        collapsed_closed(b),
        a.len() > 0 && b.len() > 0 && a.last().collapsed ==> b[0].depth <= a.last().depth,
        a.len() == 0 && b.len() > 0 ==> b[0].depth == d,
    ensures
        walk_shaped(ts, lk, a + b, d),
{
    let c = a + b;
    assert forall|k: int| #![trigger c[k]] 0 <= k < c.len() implies exists|i: int, e: int|
        #![trigger row_of(ts, lk, i, e)]
        0 <= i < ts.len() && c[k] == row_of(ts, lk, i, e) by {
        if k < a.len() {
            assert(c[k] == a[k]);
        } else {
            assert(c[k] == b[k - a.len()]);
        }
    }
    assert forall|k: int| 0 <= k < c.len() implies #[trigger] c[k].depth >= d by {
        if k < a.len() {
            assert(c[k] == a[k]);
        } else {
            assert(c[k] == b[k - a.len()]);
        }
    }
    assert forall|k: int| 0 <= k < c.len() - 1 && #[trigger] c[k].collapsed implies c[k + 1].depth <= c[k].depth by {
        if k < a.len() - 1 {
            assert(c[k] == a[k] && c[k + 1] == a[k + 1]);
        } else if k == a.len() - 1 {
            assert(c[k] == a[k] && c[k + 1] == b[0]);
        } else {
            assert(c[k] == b[k - a.len()] && c[k + 1] == b[k + 1 - a.len()]);
        }
    }
    if c.len() > 0 {
        if a.len() > 0 {
            assert(c[0] == a[0]);
        } else {
            assert(c[0] == b[0]);
        }
    }
}

proof fn lemma_kids_in_range(ts: Seq<TaskView>, id: TaskId, n: int)
    requires
        0 <= n <= ts.len(),
    ensures
        forall|k: int| 0 <= k < kids_upto(ts, id, n).len() ==> 0 <= #[trigger] kids_upto(ts, id, n)[k] < n,
    decreases n,
{
    if n > 0 {
        lemma_kids_in_range(ts, id, n - 1);
        let pre = kids_upto(ts, id, n - 1);
        let more = Seq::new(count_of(ts[n - 1].parent_ids, id), |k: int| n - 1);
        assert forall|k: int| 0 <= k < kids_upto(ts, id, n).len() implies 0 <= #[trigger] kids_upto(ts, id, n)[k] < n by {
            if k < pre.len() {
                assert(kids_upto(ts, id, n)[k] == pre[k]);
            } else {
                assert(kids_upto(ts, id, n)[k] == more[k - pre.len()]);
            }
        }
    }
}

proof fn lemma_count_of_pos(s: Seq<TaskId>, id: TaskId)
    ensures
        count_of(s, id) > 0 <==> s.contains(id),
    decreases s.len(),
{
    if s.len() > 0 {
        lemma_count_of_pos(s.drop_last(), id);
        if s.drop_last().contains(id) {
            let j = choose|j: int| 0 <= j < s.drop_last().len() && #[trigger] s.drop_last()[j] == id;
            assert(s[j] == id);
        }
        if s.contains(id) && s.last() != id {
            let j = choose|j: int| 0 <= j < s.len() && #[trigger] s[j] == id;
            assert(s.drop_last()[j] == id);
        }
        if s.last() == id {
            assert(s[s.len() - 1] == id);
        }
    }
}

proof fn lemma_kids_nonempty(ts: Seq<TaskView>, id: TaskId, n: int)
    requires
        0 <= n <= ts.len(),
    ensures
        kids_upto(ts, id, n).len() > 0 <==> exists|j: int| 0 <= j < n && #[trigger] ts[j].parent_ids.contains(id),
    decreases n,
{
    if n > 0 {
        lemma_kids_nonempty(ts, id, n - 1);
        lemma_count_of_pos(ts[n - 1].parent_ids, id);
        if exists|j: int| 0 <= j < n && #[trigger] ts[j].parent_ids.contains(id) {
            let j = choose|j: int| 0 <= j < n && #[trigger] ts[j].parent_ids.contains(id);
            if j < n - 1 {
                assert(kids_upto(ts, id, n - 1).len() > 0);
            }
        }
    }
}

proof fn lemma_walk_shaped(ts: Seq<TaskView>, lk: Lookups, i: int, depth: int, path: Seq<TaskId>, fuel: nat)
    requires
        0 <= i < ts.len(),
    ensures
        walk_shaped(ts, lk, walk(ts, lk, i, depth, path, fuel), depth),
    decreases fuel, 0int,
{
    let w = walk(ts, lk, i, depth, path, fuel);
    if fuel == 0 || path.contains(ts[i].id) {
        assert(w.len() == 0);
    } else {
        let r = row_of(ts, lk, i, depth);
        let one = seq![r];
        assert(one[0] == row_of(ts, lk, i, depth));
        assert(walk_shaped(ts, lk, one, depth));
        if !lk.collapsed.contains(ts[i].id) {
            let ks = kids(ts, ts[i].id);
            lemma_kids_in_range(ts, ts[i].id, ts.len() as int);
            let rest = walk_from(ts, lk, ks, 0, depth + 1, path.push(ts[i].id), (fuel - 1) as nat);
            lemma_walk_from_shaped(ts, lk, ks, 0, depth + 1, path.push(ts[i].id), (fuel - 1) as nat);
            lemma_rows_concat(ts, lk, one, rest, depth);
        }
    }
}

proof fn lemma_walk_from_shaped(
    ts: Seq<TaskView>,
    lk: Lookups,
    ks: Seq<int>,
    j: int,
    depth: int,
    path: Seq<TaskId>,
    fuel: nat,
)
    requires
        forall|k: int| 0 <= k < ks.len() ==> 0 <= #[trigger] ks[k] < ts.len(),
    ensures
        walk_shaped(ts, lk, walk_from(ts, lk, ks, j, depth, path, fuel), depth),
    decreases fuel, ks.len() - j + 1,
{
    if 0 <= j < ks.len() {
        let a = walk(ts, lk, ks[j], depth, path, fuel);
        let b = walk_from(ts, lk, ks, j + 1, depth, path, fuel);
        lemma_walk_shaped(ts, lk, ks[j], depth, path, fuel);
        lemma_walk_from_shaped(ts, lk, ks, j + 1, depth, path, fuel);
        if a.len() > 0 {
            assert(a[a.len() - 1].depth >= depth);
        }
        lemma_rows_concat(ts, lk, a, b, depth);
    }
}

proof fn lemma_roots_shaped(ts: Seq<TaskView>, lk: Lookups, i: int)
    ensures
        walk_shaped(ts, lk, roots_from(ts, lk, i), 0),
    decreases ts.len() - i,
{
    if 0 <= i < ts.len() {
        let a = if is_root(ts, i) { root_walk(ts, lk, i) } else { seq![] };
        lemma_walk_shaped(ts, lk, i, 0, seq![], (ts.len() + 1) as nat);
        lemma_roots_shaped(ts, lk, i + 1);
        if a.len() > 0 {
            assert(a[a.len() - 1].depth >= 0);
        }
        lemma_rows_concat(ts, lk, a, roots_from(ts, lk, i + 1), 0);
    }
}

proof fn lemma_fallback_shaped(ts: Seq<TaskView>, lk: Lookups, i: int, rows: Seq<RowView>)
    ensures
        walk_shaped(ts, lk, fallback(ts, lk, i, rows), 0),
    decreases ts.len() - i,
{
    if 0 <= i < ts.len() {
        if seen(ts, rows, ts[i].id) {
            lemma_fallback_shaped(ts, lk, i + 1, rows);
        } else {
            let a = root_walk(ts, lk, i);
            lemma_walk_shaped(ts, lk, i, 0, seq![], (ts.len() + 1) as nat);
            lemma_fallback_shaped(ts, lk, i + 1, rows + a);
            if a.len() > 0 {
                assert(a[a.len() - 1].depth >= 0);
            }
            lemma_rows_concat(ts, lk, a, fallback(ts, lk, i + 1, rows + a), 0);
        }
    }
}

/// What each row of the task list shows of its task: it is the row of one
/// of the tasks; it is collapsed exactly when its task is among the
/// collapsed ids; it has children exactly when some task names its task as
/// a parent; a collapsed row with children sums up how many of them are
/// complete, out of how many (every other row sums up nothing); and a
/// collapsed row is never followed by a deeper one, its subtree being
/// hidden.
pub proof fn law_task_list_rows(ts: Seq<TaskView>, lk: Lookups, k: int)
    requires
        0 <= k < all_rows(ts, lk).len(),
    ensures
        ({
            let r = all_rows(ts, lk)[k];
            &&& exists|i: int| 0 <= i < ts.len() && #[trigger] ts[i].id == r.id
            &&& r.collapsed == lk.collapsed.contains(r.id)
            &&& r.has_children == exists|j: int| 0 <= j < ts.len() && #[trigger] ts[j].parent_ids.contains(r.id)
            &&& r.direct_summary == (if r.has_children && r.collapsed {
                Some((complete_among(ts, kids(ts, r.id)) as int, kids(ts, r.id).len() as int))
            } else {
                None::<(int, int)>
            })
            &&& (k + 1 < all_rows(ts, lk).len() && r.collapsed ==> all_rows(ts, lk)[k + 1].depth <= r.depth)
        }),
{
    let a = roots_from(ts, lk, 0);
    let b = fallback(ts, lk, 0, a);
    lemma_roots_shaped(ts, lk, 0);
    lemma_fallback_shaped(ts, lk, 0, a);
    if a.len() > 0 {
        assert(a[a.len() - 1].depth >= 0);
    }
    lemma_rows_concat(ts, lk, a, b, 0);
    let rows = all_rows(ts, lk);
    assert(rows == a + b);
    let r = rows[k];
    let (i, d) = choose|i: int, d: int| #![trigger row_of(ts, lk, i, d)] 0 <= i < ts.len() && r == row_of(ts, lk, i, d);
    assert(ts[i].id == r.id);
    lemma_kids_nonempty(ts, r.id, ts.len() as int);
}

/// `p` is a parent of `c` once the tasks under `id` are promoted to the
/// parents `gps` of `id`: a parent it had other than `id`, or one of `gps`.
pub open spec fn promoted_parent(es: Seq<Edge>, id: TaskId, gps: Seq<TaskId>, c: TaskId, p: TaskId) -> bool {
    (parents_in(es, c).contains(p) && p != id) || gps.contains(p)
}

/// The edges after promoting each of `kids`: a promoted task sits under
/// exactly its promoted parents (at the top level when it has none); every
/// other task keeps its edges.
proof fn lemma_promoted_edge(es: Seq<Edge>, id: TaskId, gps: Seq<TaskId>, kids: Seq<TaskId>, e: Edge)
    ensures
        promoted_edges(es, id, gps, kids).contains(e) <==> (if kids.contains(e.child) {
            match e.parent {
                Some(p) => promoted_parent(es, id, gps, e.child, p),
                None => forall|q: TaskId| !#[trigger] promoted_parent(es, id, gps, e.child, q),
            }
        } else {
            es.contains(e)
        }),
    decreases kids.len(),
{
    if kids.len() > 0 {
        let pre = kids.drop_last();
        let c = kids.last();
        let e1 = promoted_edges(es, id, gps, pre);
        let l = merge_ids(without(parents_in(e1, c), id), gps);
        let w = wanted_ids(l);
        assert(promoted_edges(es, id, gps, kids) == reparented_edges(e1, c, l));
        lemma_prune(e1, c, w, e);
        lemma_add_edges(prune(e1, c, w), c, w, Placement::End, e);
        assert(kids.contains(e.child) <==> (pre.contains(e.child) || e.child == c)) by {
            if kids.contains(e.child) && e.child != c {
                let j = choose|j: int| 0 <= j < kids.len() && #[trigger] kids[j] == e.child;
                assert(pre[j] == e.child);
            }
            if pre.contains(e.child) {
                let j = choose|j: int| 0 <= j < pre.len() && #[trigger] pre[j] == e.child;
                assert(kids[j] == e.child);
            }
            if e.child == c {
                assert(kids[kids.len() - 1] == c);
            }
        }
        if e.child != c {
            lemma_promoted_edge(es, id, gps, pre, e);
        } else {
            assert forall|q: TaskId| l.contains(q) <==> #[trigger] promoted_parent(es, id, gps, c, q) by {
                lemma_merge_ids(without(parents_in(e1, c), id), gps, q);
                lemma_without(parents_in(e1, c), id, q);
                lemma_parents_in_contains(e1, c, q);
                lemma_promoted_edge(es, id, gps, pre, Edge { parent: Some(q), child: c });
                lemma_parents_in_contains(es, c, q);
            }
            if l.len() > 0 {
                assert(l.contains(l[0]));
                assert(w == l.map_values(|p: TaskId| Some(p)));
                assert(!w.contains(None::<TaskId>)) by {
                    if w.contains(None::<TaskId>) {
                        let j = choose|j: int| 0 <= j < w.len() && #[trigger] w[j] == None::<TaskId>;
                        assert(w[j] == Some(l[j]));
                    }
                }
                assert forall|q: TaskId| w.contains(Some(q)) <==> #[trigger] l.contains(q) by {
                    if w.contains(Some(q)) {
                        let j = choose|j: int| 0 <= j < w.len() && #[trigger] w[j] == Some(q);
                        assert(l[j] == q);
                    }
                    if l.contains(q) {
                        let j = choose|j: int| 0 <= j < l.len() && #[trigger] l[j] == q;
                        assert(w[j] == Some(q));
                    }
                }
            } else {
                assert(w == seq![None::<TaskId>]);
                assert(w.contains(None::<TaskId>)) by {
                    assert(w[0] == None::<TaskId>);
                }
                assert forall|q: TaskId| !w.contains(Some(q)) by {
                    if w.contains(Some(q)) {
                        let j = choose|j: int| 0 <= j < w.len() && #[trigger] w[j] == Some(q);
                    }
                }
            }
            assert(promoted_edges(es, id, gps, kids).contains(e) <==> w.contains(e.parent));
            assert(kids.contains(e.child));
            match e.parent {
                Some(p) => {
                    assert(l.contains(p) <==> promoted_parent(es, id, gps, c, p));
                    assert(w.contains(Some(p)) <==> l.contains(p));
                },
                None => {
                    if l.len() > 0 {
                        let q = l[0];
                        assert(l.contains(q));
                        assert(promoted_parent(es, id, gps, c, q));
                    } else {
                        assert forall|q: TaskId| !#[trigger] promoted_parent(es, id, gps, c, q) by {
                            if promoted_parent(es, id, gps, c, q) {
                                assert(l.contains(q));
                            }
                        }
                    }
                },
            }
        }
    }
}

proof fn lemma_promoted_no_dup(es: Seq<Edge>, id: TaskId, gps: Seq<TaskId>, kids: Seq<TaskId>)
    requires
        es.no_duplicates(),
    ensures
        promoted_edges(es, id, gps, kids).no_duplicates(),
    decreases kids.len(),
{
    if kids.len() > 0 {
        let pre = kids.drop_last();
        let c = kids.last();
        lemma_promoted_no_dup(es, id, gps, pre);
        let e1 = promoted_edges(es, id, gps, pre);
        let w = wanted_ids(merge_ids(without(parents_in(e1, c), id), gps));
        let any = Edge { parent: None, child: c };
        lemma_prune(e1, c, w, any);
        lemma_add_edges(prune(e1, c, w), c, w, Placement::End, any);
    }
}

proof fn lemma_parents_in_no_dup(es: Seq<Edge>, c: TaskId)
    requires
        es.no_duplicates(),
    ensures
        parents_in(es, c).no_duplicates(),
    decreases es.len(),
{
    if es.len() > 0 {
        let pre = es.drop_last();
        assert(pre.no_duplicates());
        lemma_parents_in_no_dup(pre, c);
        if es.last().child == c && es.last().parent is Some {
            let p = es.last().parent->0;
            lemma_parents_in_contains(pre, c, p);
            assert(!pre.contains(es.last())) by {
                if pre.contains(es.last()) {
                    let j = choose|j: int| 0 <= j < pre.len() && #[trigger] pre[j] == es.last();
                    assert(es[j] == es[es.len() - 1]);
                }
            }
            let ps = parents_in(pre, c);
            assert forall|i: int, j: int| 0 <= i < j < ps.push(p).len() implies ps.push(p)[i] != ps.push(p)[j] by {
                if j == ps.len() {
                    assert(ps.contains(ps[i]));
                }
            }
        }
    }
}

/// Deleting a task and promoting its children soft-deletes the task at
/// the delete's time, and moves each task under it to the task's own
/// parents: its parents afterwards are the ones it had other than the
/// deleted task, together with the deleted task's parents, each once (in
/// every store, see `store_valid`); left with none, it moves to the top
/// level. A live child stays live. The tasks the delete writes, which it
/// hands back each once, are the task and its live children.
pub proof fn law_promote_children(v: StoreView, id: TaskId, now: Timestamp, c: TaskId, p: TaskId)
    requires
        live_task(v, id) is Some,
        children_in(v.edges, Some(id)).contains(c),
        c != id,
    ensures
        any_task(deleted_state(v, id, DeleteMode::PromoteChildren, now), id) matches Some(t)
            && t.deleted_at == Some(now),
        parents_in(deleted_state(v, id, DeleteMode::PromoteChildren, now).edges, c).contains(p) <==> (
        (parents_in(v.edges, c).contains(p) && p != id) || parents_in(v.edges, id).contains(p)),
        (forall|q: TaskId| !#[trigger] promoted_parent(v.edges, id, parents_in(v.edges, id), c, q))
            ==> edge_in(deleted_state(v, id, DeleteMode::PromoteChildren, now).edges, None, c),
        live_task(v, c) is Some ==> live_task(deleted_state(v, id, DeleteMode::PromoteChildren, now), c)
            is Some,
        store_valid(v) ==> parents_in(deleted_state(v, id, DeleteMode::PromoteChildren, now).edges, c)
            .no_duplicates(),
        forall|x: TaskId|
            #[trigger] delete_touched(v, id, DeleteMode::PromoteChildren).contains(x) <==> (x == id || (
            children_in(v.edges, Some(id)).contains(x) && x != id && live_task(v, x) is Some)),
{
    let d = deleted_state(v, id, DeleteMode::PromoteChildren, now);
    let gps = parents_in(v.edges, id);
    let kids = children_in(v.edges, Some(id));
    lemma_promoted_edge(v.edges, id, gps, kids, Edge { parent: Some(p), child: c });
    lemma_promoted_edge(v.edges, id, gps, kids, Edge { parent: None, child: c });
    lemma_parents_in_contains(d.edges, c, p);
    if store_valid(v) {
        lemma_promoted_no_dup(v.edges, id, gps, kids);
        lemma_parents_in_no_dup(d.edges, c);
    }
    lemma_task_index_bounds(v.tasks, id);
    lemma_task_index_bounds(v.tasks, c);
    let rows1 = mark_rows(v.tasks, set![id], tomb_fn(now));
    crate::facade::lemma_mark_rows_ids(v.tasks, set![id], tomb_fn(now), id);
    crate::facade::lemma_mark_rows_ids(rows1, promote_spared(v, id), touch_fn(now), id);
    crate::facade::lemma_mark_rows_ids(v.tasks, set![id], tomb_fn(now), c);
    crate::facade::lemma_mark_rows_ids(rows1, promote_spared(v, id), touch_fn(now), c);
    assert(d.tasks == mark_rows(rows1, promote_spared(v, id), touch_fn(now)));
}

proof fn lemma_days_before_month_mono(y: int, a: int, b: int)
    requires
        a <= b,
    ensures
        days_before_month(y, a) <= days_before_month(y, b),
    decreases b - a,
{
    if a < b {
        lemma_days_before_month_mono(y, a, b - 1);
        if b > 1 {
            assert(days_before_month(y, b) == days_before_month(y, b - 1) + month_length(y, b - 1));
        }
    }
}

/// The days of year `y`: 366 in a leap year, else 365.
proof fn lemma_year_length(y: int)
    ensures
        days_before_month(y, 12) + month_length(y, 12) == if is_leap_year(y) { 366int } else { 365int },
{
    reveal_with_fuel(days_before_month, 13);
}

proof fn lemma_floor_step(y: int, k: int)
    requires
        k > 0,
    ensures
        y / k - (y - 1) / k == if y % k == 0 { 1int } else { 0int },
{
    vstd::arithmetic::div_mod::lemma_fundamental_div_mod(y, k);
    vstd::arithmetic::div_mod::lemma_fundamental_div_mod(y - 1, k);
    assert(y / k - (y - 1) / k == if y % k == 0 { 1int } else { 0int }) by (nonlinear_arith)
        requires
            k > 0,
            y == k * (y / k) + y % k,
            y - 1 == k * ((y - 1) / k) + (y - 1) % k,
            0 <= y % k < k,
            0 <= (y - 1) % k < k,
    ;
}

/// A multiple of 400 is one of 100, and a multiple of 100 one of 4.
proof fn lemma_leap_divisors(y: int)
    ensures
        y % 400 == 0 ==> y % 100 == 0,
        y % 100 == 0 ==> y % 4 == 0,
{
    if y % 400 == 0 {
        vstd::arithmetic::div_mod::lemma_fundamental_div_mod(y, 400);
        let q = y / 400;
        assert(y == (4 * q) * 100);
        vstd::arithmetic::div_mod::lemma_mod_multiples_basic(4 * q, 100);
    }
    if y % 100 == 0 {
        vstd::arithmetic::div_mod::lemma_fundamental_div_mod(y, 100);
        let q = y / 100;
        assert(y == (25 * q) * 4);
        vstd::arithmetic::div_mod::lemma_mod_multiples_basic(25 * q, 4);
    }
}

/// January 1 of the next year comes a year's length after January 1.
#[verifier::spinoff_prover]
proof fn lemma_next_year_start(y: int)
    ensures
        day_number(y + 1, 1, 1) == day_number(y, 1, 1) + if is_leap_year(y) { 366int } else { 365int },
{
    lemma_floor_step(y, 4);
    lemma_floor_step(y, 100);
    lemma_floor_step(y, 400);
    lemma_leap_divisors(y);
    assert(days_before_month(y + 1, 1) == 0);
    assert(days_before_month(y, 1) == 0);
    assert(day_number(y + 1, 1, 1) == 365 * y + y / 4 - y / 100 + y / 400 + 1);
    assert(day_number(y, 1, 1) == 365 * (y - 1) + (y - 1) / 4 - (y - 1) / 100 + (y - 1) / 400 + 1);
}

proof fn lemma_year_start_mono(a: int, b: int)
    requires
        a < b,
    ensures
        day_number(a + 1, 1, 1) <= day_number(b, 1, 1),
    decreases b - a,
{
    if a + 1 < b {
        lemma_year_start_mono(a, b - 1);
        lemma_next_year_start(b - 1);
    }
}

/// Day counts follow the calendar: of two dates chrono holds, the earlier
/// (by year, then month, then day) has the smaller day count, so comparing
/// `Date`s compares the calendar.
pub proof fn law_day_order_is_calendar_order(y1: int, m1: int, d1: int, y2: int, m2: int, d2: int)
    requires
        is_calendar_date(y1, m1, d1),
        is_calendar_date(y2, m2, d2),
        y1 < y2 || (y1 == y2 && m1 < m2) || (y1 == y2 && m1 == m2 && d1 < d2),
    ensures
        day_number(y1, m1, d1) < day_number(y2, m2, d2),
{
    if y1 == y2 {
        if m1 < m2 {
            lemma_days_before_month_mono(y1, m1 + 1, m2);
            assert(days_before_month(y1, m1 + 1) == days_before_month(y1, m1) + month_length(y1, m1));
        }
    } else {
        lemma_days_before_month_mono(y1, m1 + 1, 13);
        assert(days_before_month(y1, m1 + 1) == days_before_month(y1, m1) + month_length(y1, m1));
        assert(days_before_month(y1, 13) == days_before_month(y1, 12) + month_length(y1, 12));
        lemma_year_length(y1);
        lemma_next_year_start(y1);
        lemma_year_start_mono(y1, y2);
        lemma_days_before_month_mono(y2, 1, m2);
        assert(days_before_month(y1, 1) == 0);
        assert(days_before_month(y2, 1) == 0);
    }
}

/// `a` comes before `b` in `s`.
pub open spec fn comes_before(s: Seq<Edge>, a: Edge, b: Edge) -> bool {
    exists|i: int, j: int| 0 <= i < j < s.len() && #[trigger] s[i] == a && #[trigger] s[j] == b
}

proof fn lemma_prune_keeps_order(es: Seq<Edge>, child: TaskId, wanted: Seq<Option<TaskId>>, a: Edge, b: Edge)
    requires
        comes_before(es, a, b),
        !(a.child == child && !wanted.contains(a.parent)),
        !(b.child == child && !wanted.contains(b.parent)),
    ensures
        comes_before(prune(es, child, wanted), a, b),
    decreases es.len(),
{
    let (i, j) = choose|i: int, j: int| 0 <= i < j < es.len() && #[trigger] es[i] == a && #[trigger] es[j] == b;
    let pre = es.drop_last();
    let rest = prune(pre, child, wanted);
    if j < es.len() - 1 {
        assert(pre[i] == a && pre[j] == b);
        lemma_prune_keeps_order(pre, child, wanted, a, b);
        let (x, y) = choose|x: int, y: int| 0 <= x < y < rest.len() && #[trigger] rest[x] == a && #[trigger] rest[y] == b;
        if !(es.last().child == child && !wanted.contains(es.last().parent)) {
            assert(prune(es, child, wanted) == rest.push(es.last()));
            assert(rest.push(es.last())[x] == a && rest.push(es.last())[y] == b);
        }
    } else {
        assert(es.last() == b);
        assert(pre[i] == a);
        lemma_prune(pre, child, wanted, a);
        assert(pre.contains(a));
        let x = choose|x: int| 0 <= x < rest.len() && #[trigger] rest[x] == a;
        assert(prune(es, child, wanted) == rest.push(b));
        assert(rest.push(b)[x] == a && rest.push(b)[rest.len() as int] == b);
    }
}

proof fn lemma_insert_keeps_order(es: Seq<Edge>, w: Option<TaskId>, child: TaskId, pl: Placement, a: Edge, b: Edge)
    requires
        comes_before(es, a, b),
    ensures
        comes_before(insert_edge(es, w, child, pl), a, b),
{
    let (i, j) = choose|i: int, j: int| 0 <= i < j < es.len() && #[trigger] es[i] == a && #[trigger] es[j] == b;
    let e = Edge { parent: w, child };
    let r = insert_edge(es, w, child, pl);
    if !es.contains(e) {
        let k = match pl {
            Placement::After(sib) => if sib != child && es.contains(Edge { parent: w, child: sib }) {
                es.index_of(Edge { parent: w, child: sib }) + 1
            } else {
                es.len() as int
            },
            _ => es.len() as int,
        };
        assert(0 <= k <= es.len());
        if k == es.len() {
            assert(r == es.push(e)) by {
                assert(es.insert(es.len() as int, e) =~= es.push(e));
            }
            assert(es.push(e)[i] == a && es.push(e)[j] == b);
        } else {
            es.insert_ensures(k, e);
            assert(r == es.insert(k, e));
            let x = if i < k { i } else { i + 1 };
            let y = if j < k { j } else { j + 1 };
            assert(r[x] == a && r[y] == b);
        }
    }
}

proof fn lemma_add_edges_keep_order(es: Seq<Edge>, child: TaskId, ws: Seq<Option<TaskId>>, pl: Placement, a: Edge, b: Edge)
    requires
        comes_before(es, a, b),
    ensures
        comes_before(add_edges(es, child, ws, pl), a, b),
    decreases ws.len(),
{
    if ws.len() > 0 {
        lemma_add_edges_keep_order(es, child, ws.drop_last(), pl, a, b);
        lemma_insert_keeps_order(add_edges(es, child, ws.drop_last(), pl), ws.last(), child, pl, a, b);
    }
}

/// Replacing a task's parents writes each edge at most once and keeps the
/// order of the edges it keeps: of two edges that stay, the earlier stays
/// earlier, so siblings keep their places and new edges only slot in.
pub proof fn law_replacing_parents_keeps_edges_once_and_in_order(
    es: Seq<Edge>,
    child: TaskId,
    parents: Parents,
    pl: Placement,
    a: Edge,
    b: Edge,
)
    ensures
        es.no_duplicates() ==> replaced_edges(es, child, parents, pl).no_duplicates(),
        comes_before(es, a, b) && replaced_edges(es, child, parents, pl).contains(a)
            && replaced_edges(es, child, parents, pl).contains(b) ==> comes_before(
            replaced_edges(es, child, parents, pl),
            a,
            b,
        ),
{
    lemma_replaced_edges(es, child, parents, pl, a);
    lemma_replaced_edges(es, child, parents, pl, b);
    if comes_before(es, a, b) && replaced_edges(es, child, parents, pl).contains(a)
        && replaced_edges(es, child, parents, pl).contains(b) {
        let ws = wanted_parents(parents);
        let (i, j) = choose|i: int, j: int| 0 <= i < j < es.len() && #[trigger] es[i] == a && #[trigger] es[j] == b;
        assert(es.contains(a) && es.contains(b));
        lemma_prune_keeps_order(es, child, ws, a, b);
        lemma_add_edges_keep_order(prune(es, child, ws), child, ws, pl, a, b);
    }
}

proof fn lemma_row_pos_in_range(rows: Seq<RowView>, id: TaskId, i: int)
    ensures
        row_pos(rows, id, i) matches Some(k) ==> 0 <= k < rows.len(),
    decreases rows.len() - i,
{
    if 0 <= i < rows.len() && rows[i].id != id {
        lemma_row_pos_in_range(rows, id, i + 1);
    }
}

/// After the rows are rendered again (collapsing or expanding one row or
/// all of them), a row is selected whenever there is one: the selected
/// task's row if it is still shown, else a row at the old place.
pub proof fn law_rerendered_rows_keep_a_selection(a: AppView)
    ensures
        rebuilt(a).rows.len() > 0 ==> (rebuilt(a).selected matches Some(i) && 0 <= i < rebuilt(a).rows.len()),
        rebuilt(a).rows.len() == 0 ==> rebuilt(a).selected is None,
        sel_id(a) matches Some(x) ==> (row_pos(rebuilt(a).rows, x, 0) is Some ==> rebuilt(a).selected
            == row_pos(rebuilt(a).rows, x, 0)),
{
    if let Some(x) = sel_id(a) {
        lemma_row_pos_in_range(rebuilt(a).rows, x, 0);
    }
}

/// Each row is at most one level deeper than the row before it.
pub open spec fn steps_ok(rows: Seq<RowView>) -> bool {
    forall|k: int| 0 < k < rows.len() ==> #[trigger] rows[k].depth <= rows[k - 1].depth + 1
}

/// Row `m` is the nearest row above row `k` one level up, and shows a
/// parent of row `k`'s task.
pub open spec fn parent_row_above(ts: Seq<TaskView>, rows: Seq<RowView>, k: int, m: int) -> bool {
    &&& 0 <= m < k < rows.len()
    &&& rows[m].depth == rows[k].depth - 1
    &&& forall|l: int| m < l < k ==> #[trigger] rows[l].depth >= rows[k].depth
    &&& child_of(ts, rows[m].id, rows[k].id)
}

/// Every row deeper than `d` sits under a row showing a parent of its task.
pub open spec fn linked(ts: Seq<TaskView>, rows: Seq<RowView>, d: int) -> bool {
    forall|k: int| 0 <= k < rows.len() && #[trigger] rows[k].depth > d ==> exists|m: int| parent_row_above(ts, rows, k, m)
}

proof fn lemma_kids_name_parent(ts: Seq<TaskView>, id: TaskId, n: int)
    requires
        0 <= n <= ts.len(),
    ensures
        forall|k: int| 0 <= k < kids_upto(ts, id, n).len() ==> ts[#[trigger] kids_upto(ts, id, n)[k]].parent_ids.contains(id),
    decreases n,
{
    if n > 0 {
        lemma_kids_name_parent(ts, id, n - 1);
        let pre = kids_upto(ts, id, n - 1);
        let more = Seq::new(count_of(ts[n - 1].parent_ids, id), |k: int| n - 1);
        lemma_count_of_pos(ts[n - 1].parent_ids, id);
        assert forall|k: int| 0 <= k < kids_upto(ts, id, n).len() implies ts[#[trigger] kids_upto(ts, id, n)[k]].parent_ids.contains(id) by {
            if k < pre.len() {
                assert(kids_upto(ts, id, n)[k] == pre[k]);
            } else {
                assert(kids_upto(ts, id, n)[k] == more[k - pre.len()]);
            }
        }
    }
}

proof fn lemma_parent_row_left(ts: Seq<TaskView>, a: Seq<RowView>, b: Seq<RowView>, k: int, m: int)
    requires
        parent_row_above(ts, a, k, m),
    ensures
        parent_row_above(ts, a + b, k, m),
{
    let c = a + b;
    assert(c[k] == a[k] && c[m] == a[m]);
    assert forall|l: int| m < l < k implies #[trigger] c[l].depth >= c[k].depth by {
        assert(c[l] == a[l]);
        assert(a[l].depth >= a[k].depth);
    }
}

proof fn lemma_parent_row_right(ts: Seq<TaskView>, a: Seq<RowView>, b: Seq<RowView>, k: int, m: int)
    requires
        parent_row_above(ts, b, k, m),
    ensures
        parent_row_above(ts, a + b, k + a.len(), m + a.len()),
{
    let c = a + b;
    let n = a.len() as int;
    assert(c[k + n] == b[k] && c[m + n] == b[m]);
    assert forall|l: int| m + n < l < k + n implies #[trigger] c[l].depth >= c[k + n].depth by {
        assert(c[l] == b[l - n]);
        assert(b[l - n].depth >= b[k].depth);
    }
}

proof fn lemma_tree_concat_linked(ts: Seq<TaskView>, a: Seq<RowView>, b: Seq<RowView>, d: int)
    requires
        linked(ts, a, d),
        linked(ts, b, d),
    ensures
        linked(ts, a + b, d),
{
    let c = a + b;
    assert forall|k: int| 0 <= k < c.len() && #[trigger] c[k].depth > d implies exists|m: int| parent_row_above(ts, c, k, m) by {
        if k < a.len() {
            assert(c[k] == a[k]);
            let m = choose|m: int| parent_row_above(ts, a, k, m);
            lemma_parent_row_left(ts, a, b, k, m);
        } else {
            let kb = k - a.len();
            assert(c[k] == b[kb]);
            let mb = choose|m: int| parent_row_above(ts, b, kb, m);
            lemma_parent_row_right(ts, a, b, kb, mb);
        }
    }
}

proof fn lemma_tree_concat(ts: Seq<TaskView>, a: Seq<RowView>, b: Seq<RowView>, d: int)
    requires
        linked(ts, a, d),
        linked(ts, b, d),
        steps_ok(a),
        steps_ok(b),
        a.len() > 0 && b.len() > 0 ==> b[0].depth <= a[a.len() - 1].depth + 1,
    ensures
        linked(ts, a + b, d),
        steps_ok(a + b),
{
    let c = a + b;
    lemma_tree_concat_linked(ts, a, b, d);
    assert forall|k: int| 0 < k < c.len() implies #[trigger] c[k].depth <= c[k - 1].depth + 1 by {
        if k < a.len() {
            assert(c[k] == a[k] && c[k - 1] == a[k - 1]);
        } else if k == a.len() {
            assert(c[k] == b[0] && c[k - 1] == a[a.len() - 1]);
        } else {
            assert(c[k] == b[k - a.len()] && c[k - 1] == b[k - 1 - a.len()]);
        }
    }
}

proof fn lemma_walk_tree(ts: Seq<TaskView>, lk: Lookups, i: int, depth: int, path: Seq<TaskId>, fuel: nat)
    requires
        0 <= i < ts.len(),
    ensures
        linked(ts, walk(ts, lk, i, depth, path, fuel), depth),
        steps_ok(walk(ts, lk, i, depth, path, fuel)),
        forall|k: int|
            0 <= k < walk(ts, lk, i, depth, path, fuel).len() && #[trigger] walk(ts, lk, i, depth, path, fuel)[k].depth
                == depth ==> k == 0 && walk(ts, lk, i, depth, path, fuel)[k].id == ts[i].id,
    decreases fuel, 0int,
{
    let w = walk(ts, lk, i, depth, path, fuel);
    lemma_walk_shaped(ts, lk, i, depth, path, fuel);
    if fuel == 0 || path.contains(ts[i].id) {
    } else if lk.collapsed.contains(ts[i].id) {
        assert(w == seq![row_of(ts, lk, i, depth)]);
    } else {
        let r = row_of(ts, lk, i, depth);
        let ks = kids(ts, ts[i].id);
        lemma_kids_in_range(ts, ts[i].id, ts.len() as int);
        lemma_kids_name_parent(ts, ts[i].id, ts.len() as int);
        let p2 = path.push(ts[i].id);
        let f2 = (fuel - 1) as nat;
        let wf = walk_from(ts, lk, ks, 0, depth + 1, p2, f2);
        lemma_walk_from_tree(ts, lk, ks, 0, depth + 1, p2, f2, ts[i].id);
        lemma_walk_from_shaped(ts, lk, ks, 0, depth + 1, p2, f2);
        assert(w == seq![r] + wf);
        assert forall|k: int| 0 <= k < w.len() && #[trigger] w[k].depth > depth implies exists|m: int| parent_row_above(ts, w, k, m) by {
            assert(k >= 1);
            let kk = k - 1;
            assert(w[k] == wf[kk]);
            if wf[kk].depth > depth + 1 {
                let mm = choose|m: int| parent_row_above(ts, wf, kk, m);
                let m = mm + 1;
                assert forall|l: int| m < l < k implies #[trigger] w[l].depth >= w[k].depth by {
                    assert(w[l] == wf[l - 1]);
                    assert(wf[l - 1].depth >= wf[kk].depth);
                }
                assert(w[m] == wf[mm]);
                assert(parent_row_above(ts, w, k, m));
            } else {
                assert(wf[kk].depth >= depth + 1);
                assert(child_of(ts, ts[i].id, wf[kk].id));
                assert forall|l: int| 0 < l < k implies #[trigger] w[l].depth >= w[k].depth by {
                    assert(w[l] == wf[l - 1]);
                    assert(wf[l - 1].depth >= depth + 1);
                }
                assert(w[0] == r);
                assert(parent_row_above(ts, w, k, 0));
            }
        }
        assert forall|k: int| 0 < k < w.len() implies #[trigger] w[k].depth <= w[k - 1].depth + 1 by {
            assert(w[k] == wf[k - 1]);
            if k == 1 {
                assert(w[0] == r);
            } else {
                assert(w[k - 1] == wf[k - 2]);
            }
        }
        assert forall|k: int| 0 <= k < w.len() && #[trigger] w[k].depth == depth implies k == 0 && w[k].id == ts[i].id by {
            if k > 0 {
                assert(w[k] == wf[k - 1]);
            }
        }
    }
}

proof fn lemma_walk_from_tree(
    ts: Seq<TaskView>,
    lk: Lookups,
    ks: Seq<int>,
    j: int,
    depth: int,
    path: Seq<TaskId>,
    fuel: nat,
    pid: TaskId,
)
    requires
        forall|k: int| 0 <= k < ks.len() ==> 0 <= #[trigger] ks[k] < ts.len(),
        forall|k: int| 0 <= k < ks.len() ==> ts[#[trigger] ks[k]].parent_ids.contains(pid),
    ensures
        linked(ts, walk_from(ts, lk, ks, j, depth, path, fuel), depth),
        steps_ok(walk_from(ts, lk, ks, j, depth, path, fuel)),
        forall|k: int|
            0 <= k < walk_from(ts, lk, ks, j, depth, path, fuel).len() && #[trigger] walk_from(
                ts,
                lk,
                ks,
                j,
                depth,
                path,
                fuel,
            )[k].depth == depth ==> child_of(ts, pid, walk_from(ts, lk, ks, j, depth, path, fuel)[k].id),
    decreases fuel, ks.len() - j + 1,
{
    if 0 <= j < ks.len() {
        let a = walk(ts, lk, ks[j], depth, path, fuel);
        let b = walk_from(ts, lk, ks, j + 1, depth, path, fuel);
        let c = walk_from(ts, lk, ks, j, depth, path, fuel);
        lemma_walk_tree(ts, lk, ks[j], depth, path, fuel);
        lemma_walk_from_tree(ts, lk, ks, j + 1, depth, path, fuel, pid);
        lemma_walk_shaped(ts, lk, ks[j], depth, path, fuel);
        lemma_walk_from_shaped(ts, lk, ks, j + 1, depth, path, fuel);
        if a.len() > 0 {
            assert(a[a.len() - 1].depth >= depth);
        }
        lemma_tree_concat(ts, a, b, depth);
        assert(c == a + b);
        assert forall|k: int| 0 <= k < c.len() && #[trigger] c[k].depth == depth implies child_of(ts, pid, c[k].id) by {
            if k < a.len() {
                assert(c[k] == a[k]);
                assert(ts[ks[j]].parent_ids.contains(pid));
                assert(a[k].id == ts[ks[j]].id);
            } else {
                assert(c[k] == b[k - a.len()]);
            }
        }
    }
}

proof fn lemma_roots_tree(ts: Seq<TaskView>, lk: Lookups, i: int)
    ensures
        linked(ts, roots_from(ts, lk, i), 0),
        steps_ok(roots_from(ts, lk, i)),
    decreases ts.len() - i,
{
    if 0 <= i < ts.len() {
        let a = if is_root(ts, i) { root_walk(ts, lk, i) } else { seq![] };
        lemma_walk_tree(ts, lk, i, 0, seq![], (ts.len() + 1) as nat);
        lemma_walk_shaped(ts, lk, i, 0, seq![], (ts.len() + 1) as nat);
        lemma_roots_tree(ts, lk, i + 1);
        lemma_roots_shaped(ts, lk, i + 1);
        if a.len() > 0 {
            assert(a[a.len() - 1].depth >= 0);
        }
        lemma_tree_concat(ts, a, roots_from(ts, lk, i + 1), 0);
    }
}

proof fn lemma_fallback_tree(ts: Seq<TaskView>, lk: Lookups, i: int, rows: Seq<RowView>)
    ensures
        linked(ts, fallback(ts, lk, i, rows), 0),
        steps_ok(fallback(ts, lk, i, rows)),
    decreases ts.len() - i,
{
    if 0 <= i < ts.len() {
        if seen(ts, rows, ts[i].id) {
            lemma_fallback_tree(ts, lk, i + 1, rows);
        } else {
            let a = root_walk(ts, lk, i);
            lemma_walk_tree(ts, lk, i, 0, seq![], (ts.len() + 1) as nat);
            lemma_walk_shaped(ts, lk, i, 0, seq![], (ts.len() + 1) as nat);
            lemma_fallback_tree(ts, lk, i + 1, rows + a);
            lemma_fallback_shaped(ts, lk, i + 1, rows + a);
            if a.len() > 0 {
                assert(a[a.len() - 1].depth >= 0);
            }
            lemma_tree_concat(ts, a, fallback(ts, lk, i + 1, rows + a), 0);
        }
    }
}

/// The task list is laid out as a tree, whatever the tasks (parents may
/// be missing or form cycles): the first row is at the top level, each
/// row is at most one level deeper than the one before, and a nested row
/// sits under the nearest row one level up, which shows one of its task's
/// parents. With nothing collapsed, every task has a row.
pub proof fn law_task_list_is_a_tree(ts: Seq<TaskView>, lk: Lookups)
    ensures
        all_rows(ts, lk).len() > 0 ==> all_rows(ts, lk)[0].depth == 0,
        steps_ok(all_rows(ts, lk)),
        forall|k: int|
            0 <= k < all_rows(ts, lk).len() && #[trigger] all_rows(ts, lk)[k].depth > 0 ==> exists|m: int|
                parent_row_above(ts, all_rows(ts, lk), k, m),
        lk.collapsed.len() == 0 ==> forall|k: int|
            0 <= k < ts.len() ==> all_rows(ts, lk).map_values(|r: RowView| r.id).contains(#[trigger] ts[k].id),
{
    let a = roots_from(ts, lk, 0);
    let b = fallback(ts, lk, 0, a);
    let rows = all_rows(ts, lk);
    assert(rows == a + b);
    lemma_roots_shaped(ts, lk, 0);
    lemma_fallback_shaped(ts, lk, 0, a);
    lemma_roots_tree(ts, lk, 0);
    lemma_fallback_tree(ts, lk, 0, a);
    if a.len() > 0 {
        assert(a[a.len() - 1].depth >= 0);
    }
    lemma_rows_concat(ts, lk, a, b, 0);
    lemma_tree_concat(ts, a, b, 0);
    if lk.collapsed.len() == 0 {
        assert forall|k: int| 0 <= k < ts.len() implies rows.map_values(|r: RowView| r.id).contains(#[trigger] ts[k].id) by {
            law_every_task_is_listed_or_hidden(ts, lk, k);
            if !rows.map_values(|r: RowView| r.id).contains(ts[k].id) {
                let q = choose|q: int| 0 <= q < rows.len() && #[trigger] rows[q].collapsed && crate::render::below(ts, rows[q].id, ts[k].id);
                let (i, d) = choose|i: int, d: int| #![trigger row_of(ts, lk, i, d)] 0 <= i < ts.len() && rows[q] == row_of(ts, lk, i, d);
                assert(!lk.collapsed.contains(ts[i].id));
            }
        }
    }
}

/// `x` comes before `y` in `s`.
pub open spec fn seq_before(s: Seq<TaskId>, x: TaskId, y: TaskId) -> bool {
    exists|i: int, j: int| 0 <= i < j < s.len() && #[trigger] s[i] == x && #[trigger] s[j] == y
}

proof fn lemma_children_in_no_dup(es: Seq<Edge>, k: Option<TaskId>)
    requires
        es.no_duplicates(),
    ensures
        children_in(es, k).no_duplicates(),
    decreases es.len(),
{
    if es.len() > 0 {
        let pre = es.drop_last();
        assert(pre.no_duplicates());
        lemma_children_in_no_dup(pre, k);
        if es.last().parent == k {
            let x = es.last().child;
            lemma_children_in_contains(pre, k, x);
            assert(!pre.contains(es.last())) by {
                if pre.contains(es.last()) {
                    let j = choose|j: int| 0 <= j < pre.len() && #[trigger] pre[j] == es.last();
                    assert(es[j] == es[es.len() - 1]);
                }
            }
            let cs = children_in(pre, k);
            assert forall|i: int, j: int| 0 <= i < j < cs.push(x).len() implies cs.push(x)[i] != cs.push(x)[j] by {
                if j == cs.len() {
                    assert(cs.contains(cs[i]));
                }
            }
        }
    }
}

proof fn lemma_child_order_to_edges(es: Seq<Edge>, k: Option<TaskId>, x: TaskId, y: TaskId)
    requires
        seq_before(children_in(es, k), x, y),
    ensures
        comes_before(es, Edge { parent: k, child: x }, Edge { parent: k, child: y }),
    decreases es.len(),
{
    let pre = es.drop_last();
    let cs = children_in(pre, k);
    let (i, j) = choose|i: int, j: int| 0 <= i < j < children_in(es, k).len() && #[trigger] children_in(es, k)[i] == x && #[trigger] children_in(es, k)[j] == y;
    if es.last().parent == k && j == cs.len() {
        assert(children_in(es, k) == cs.push(es.last().child));
        assert(cs[i] == x);
        lemma_children_in_contains(pre, k, x);
        let m = choose|m: int| 0 <= m < pre.len() && #[trigger] pre[m] == Edge { parent: k, child: x };
        assert(es[m] == Edge { parent: k, child: x });
        assert(es[es.len() - 1] == Edge { parent: k, child: y });
    } else {
        if es.last().parent == k {
            assert(children_in(es, k) == cs.push(es.last().child));
        }
        assert(cs[i] == x && cs[j] == y);
        lemma_child_order_to_edges(pre, k, x, y);
        let (a, b) = choose|a: int, b: int| 0 <= a < b < pre.len() && #[trigger] pre[a] == Edge { parent: k, child: x } && #[trigger] pre[b] == Edge { parent: k, child: y };
        assert(es[a] == pre[a] && es[b] == pre[b]);
    }
}

proof fn lemma_edge_order_to_children(es: Seq<Edge>, k: Option<TaskId>, x: TaskId, y: TaskId)
    requires
        comes_before(es, Edge { parent: k, child: x }, Edge { parent: k, child: y }),
    ensures
        seq_before(children_in(es, k), x, y),
    decreases es.len(),
{
    let pre = es.drop_last();
    let cs = children_in(pre, k);
    let (i, j) = choose|i: int, j: int| 0 <= i < j < es.len() && #[trigger] es[i] == Edge { parent: k, child: x } && #[trigger] es[j] == Edge { parent: k, child: y };
    assert(children_in(es, k) == cs.push(es.last().child) || children_in(es, k) == cs);
    if j == es.len() - 1 {
        assert(es.last() == Edge { parent: k, child: y });
        assert(children_in(es, k) == cs.push(y));
        assert(pre[i] == Edge { parent: k, child: x });
        lemma_children_in_contains(pre, k, x);
        let m = choose|m: int| 0 <= m < cs.len() && #[trigger] cs[m] == x;
        assert(cs.push(y)[m] == x && cs.push(y)[cs.len() as int] == y);
    } else {
        assert(pre[i] == es[i] && pre[j] == es[j]);
        lemma_edge_order_to_children(pre, k, x, y);
        let (a, b) = choose|a: int, b: int| 0 <= a < b < cs.len() && #[trigger] cs[a] == x && #[trigger] cs[b] == y;
        if es.last().parent == k {
            assert(children_in(es, k) == cs.push(es.last().child));
            assert(cs.push(es.last().child)[a] == x && cs.push(es.last().child)[b] == y);
        }
    }
}

/// Replacing a task's parents, per parent key (a task, or the top level):
/// the task is listed once under each key it is moved under and nowhere
/// else, no child is listed twice under any key, every other child stays
/// listed where it was, and two other children under a key keep their
/// order. Every store keeps its edges unique (`store_valid`).
pub proof fn law_replacing_parents_per_key(
    es: Seq<Edge>,
    child: TaskId,
    parents: Parents,
    pl: Placement,
    k: Option<TaskId>,
    x: TaskId,
    y: TaskId,
)
    requires
        es.no_duplicates(),
    ensures
        children_in(replaced_edges(es, child, parents, pl), k).no_duplicates(),
        children_in(replaced_edges(es, child, parents, pl), k).contains(child) <==> wanted_parents(parents).contains(k),
        x != child ==> (children_in(replaced_edges(es, child, parents, pl), k).contains(x) <==> children_in(es, k).contains(x)),
        x != child && y != child && seq_before(children_in(es, k), x, y) ==> seq_before(
            children_in(replaced_edges(es, child, parents, pl), k),
            x,
            y,
        ),
{
    let r = replaced_edges(es, child, parents, pl);
    lemma_replaced_edges(es, child, parents, pl, Edge { parent: k, child });
    lemma_replaced_edges(es, child, parents, pl, Edge { parent: k, child: x });
    lemma_replaced_edges(es, child, parents, pl, Edge { parent: k, child: y });
    lemma_children_in_no_dup(r, k);
    lemma_children_in_contains(r, k, child);
    lemma_children_in_contains(r, k, x);
    lemma_children_in_contains(es, k, x);
    lemma_children_in_contains(r, k, y);
    lemma_children_in_contains(es, k, y);
    if x != child && y != child && seq_before(children_in(es, k), x, y) {
        lemma_child_order_to_edges(es, k, x, y);
        let (i, j) = choose|i: int, j: int| 0 <= i < j < es.len() && #[trigger] es[i] == Edge { parent: k, child: x } && #[trigger] es[j] == Edge { parent: k, child: y };
        assert(es.contains(Edge { parent: k, child: x }) && es.contains(Edge { parent: k, child: y }));
        law_replacing_parents_keeps_edges_once_and_in_order(
            es,
            child,
            parents,
            pl,
            Edge { parent: k, child: x },
            Edge { parent: k, child: y },
        );
        lemma_edge_order_to_children(r, k, x, y);
    }
}

} // verus!
