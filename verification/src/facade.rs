//! The `Core` facade: the single entry point every caller drives.
//!
//! Every task a `Core` method returns is the task as it then stands in the
//! store, parent ids read from the edges and progress computed from its live
//! direct children (`shown`). Methods that change the store keep the
//! hierarchy acyclic.

use vstd::prelude::*;

use crate::error::{CoreError, StoreError};
use crate::hierarchy::acyclic;
use crate::hierarchy::{
    contains_id, first_cycle, is_up_path, lemma_bounded_visits, lemma_replace_keeps_acyclic,
    reaches, replace_parents, step_ok,
};
use crate::ids::{Date, TaskId, Timestamp, UserId};
use crate::model::{
    DeleteMode, copy_ids, opt_text, parents_ids, unset_progress, Field, NewTask, Parents, Placement, Progress,
    Task, TaskPatch, TaskStatus, TaskType, TaskTypeView, TaskView, TreeFilter, User,
};
use crate::rollup::{direct_children_progress, rollup};
use crate::store::{store_valid, 
    lemma_children_in_contains, lemma_parents_in_contains, cut_edges, lemma_cut_edges, add_edges, parents_in, any_task, children_in, edge_in, id_in_use, lemma_map_push, lemma_task_index_bounds, lemma_upsert_task, listed,
    live_task, prune, read_row, replaced_edges, stored_row, task_index, task_row, type_row,
    upsert_task, upsert_type, upsert_user, user_row, wanted_parents, Edge, InMemoryStore, StoreView,
};
use crate::text::{is_blank, is_blank_text, owned};

verus! {

/// The live tasks among `ids`, in order, as stored.
pub open spec fn live_rows(v: StoreView, ids: Seq<TaskId>) -> Seq<TaskView>
    decreases ids.len(),
{
    if ids.len() == 0 {
        seq![]
    } else {
        match live_task(v, ids.last()) {
            Some(t) => live_rows(v, ids.drop_last()).push(t),
            None => live_rows(v, ids.drop_last()),
        }
    }
}

/// A task's live direct children, in sibling order.
pub open spec fn live_children(v: StoreView, id: TaskId) -> Seq<TaskView> {
    live_rows(v, children_in(v.edges, Some(id)))
}

/// A task's progress, from its live direct children.
pub open spec fn progress_in(v: StoreView, t: TaskView) -> Progress {
    rollup(live_children(v, t.id), t.status)
}

/// A stored task as the library hands it out: with its progress computed.
pub open spec fn shown(v: StoreView, t: TaskView) -> TaskView {
    TaskView { progress: progress_in(v, t), ..t }
}

/// The views of a list of tasks.
pub open spec fn views(ts: Seq<Task>) -> Seq<TaskView> {
    ts.map_values(|t: Task| t@)
}

/// Each of `ts` as handed out.
pub open spec fn shown_all(v: StoreView, ts: Seq<TaskView>) -> Seq<TaskView> {
    ts.map_values(|t: TaskView| shown(v, t))
}

/// The type every store is seeded with: key `"task"`, label `"Task"`.
pub open spec fn default_type() -> TaskTypeView {
    TaskTypeView { key: "task"@, label: "Task"@, color: None, sort_order: 0 }
}

/// `v` with the default type added unless a type with its key exists.
pub open spec fn seeded(v: StoreView) -> StoreView {
    if type_row(v.types, "task"@) is Some {
        v
    } else {
        StoreView { types: upsert_type(v.types, default_type()), ..v }
    }
}

// ---------------------------------------------------------------------------
// Task creation.
// ---------------------------------------------------------------------------

/// The type key a new task asks for: the given one, else `"task"`.
pub open spec fn new_type_key(n: NewTask) -> Seq<char> {
    match n.type_key {
        Some(k) => k@,
        None => "task"@,
    }
}

/// Both dates are set and the due date is before the start date.
pub open spec fn dates_backwards(start: Option<Date>, due: Option<Date>) -> bool {
    start matches Some(s) && due matches Some(d) && d.days < s.days
}

/// The first of `ids` that names no live task.
pub open spec fn first_missing(v: StoreView, ids: Seq<TaskId>) -> Option<TaskId>
    decreases ids.len(),
{
    if ids.len() == 0 {
        None
    } else {
        match first_missing(v, ids.drop_last()) {
            Some(p) => Some(p),
            None => if live_task(v, ids.last()) is None {
                Some(ids.last())
            } else {
                None
            },
        }
    }
}

/// The assignee, when given, is a known user.
pub open spec fn assignee_known(v: StoreView, a: Option<UserId>) -> bool {
    a matches Some(u) ==> user_row(v.users, u) is Some
}

/// Every check task creation makes passes.
pub open spec fn create_ok(v: StoreView, n: NewTask) -> bool {
    &&& !is_blank(n.title@)
    &&& type_row(v.types, new_type_key(n)) is Some
    &&& !dates_backwards(n.start_date, n.due_date)
    &&& first_missing(v, n.parent_ids@) is None
    &&& assignee_known(v, n.assignee_id)
}

/// `e` is the error of the first check task creation fails, in the order:
/// title, type, dates, parents, assignee.
pub open spec fn create_error(v: StoreView, n: NewTask, e: CoreError) -> bool {
    if is_blank(n.title@) {
        e == CoreError::EmptyTitle
    } else if type_row(v.types, new_type_key(n)) is None {
        e matches CoreError::UnknownTaskType(k) && k@ == new_type_key(n)
    } else if dates_backwards(n.start_date, n.due_date) {
        e == CoreError::InvalidDateRange { start: n.start_date->0, due: n.due_date->0 }
    } else if first_missing(v, n.parent_ids@) is Some {
        e == CoreError::NotFound(first_missing(v, n.parent_ids@)->0)
    } else {
        e == CoreError::UnknownUser(n.assignee_id->0)
    }
}

/// The parent edges a list of parent ids asks for (`None`: the top level).
pub open spec fn wanted_ids(ids: Seq<TaskId>) -> Seq<Option<TaskId>> {
    if ids.len() == 0 {
        seq![None]
    } else {
        ids.map_values(|p: TaskId| Some(p))
    }
}

/// The row a new task is stored as.
pub open spec fn new_row(n: NewTask, id: TaskId, now: Timestamp) -> TaskView {
    TaskView {
        id,
        title: n.title@,
        description: opt_text(n.description),
        parent_ids: seq![],
        type_key: new_type_key(n),
        status: TaskStatus::Incomplete,
        progress: unset_progress(),
        start_date: n.start_date,
        due_date: n.due_date,
        assignee_id: n.assignee_id,
        created_at: now,
        updated_at: now,
        deleted_at: None,
        completed_at: None,
    }
}

/// The store after creating task `id` from `n` at `now`.
pub open spec fn created(v: StoreView, n: NewTask, id: TaskId, now: Timestamp) -> StoreView {
    StoreView {
        tasks: v.tasks.push(new_row(n, id, now)),
        edges: add_edges(v.edges, id, wanted_ids(n.parent_ids@), Placement::End),
        ..v
    }
}

proof fn lemma_first_missing_none(v: StoreView, ids: Seq<TaskId>)
    requires
        first_missing(v, ids) is None,
    ensures
        forall|k: int| 0 <= k < ids.len() ==> live_task(v, #[trigger] ids[k]) is Some,
    decreases ids.len(),
{
    if ids.len() > 0 {
        lemma_first_missing_none(v, ids.drop_last());
        assert forall|k: int| 0 <= k < ids.len() implies live_task(v, #[trigger] ids[k]) is Some by {
            if k < ids.len() - 1 {
                assert(ids.drop_last()[k] == ids[k]);
            }
        }
    }
}

/// A missing parent found among the first `n` ids is the first of all.
proof fn lemma_first_missing_prefix(v: StoreView, ids: Seq<TaskId>, n: int)
    requires
        0 <= n <= ids.len(),
        first_missing(v, ids.subrange(0, n)) is Some,
    ensures
        first_missing(v, ids) == first_missing(v, ids.subrange(0, n)),
    decreases ids.len() - n,
{
    if n < ids.len() {
        let sub = ids.subrange(0, n + 1);
        assert(sub.drop_last() == ids.subrange(0, n));
        lemma_first_missing_prefix(v, ids, n + 1);
    } else {
        assert(ids.subrange(0, n) == ids);
    }
}

/// No edge names `id`.
pub open spec fn edges_avoid(es: Seq<Edge>, id: TaskId) -> bool {
    forall|i: int| 0 <= i < es.len() ==> #[trigger] es[i].child != id && es[i].parent != Some(id)
}

proof fn lemma_prune_untouched(es: Seq<Edge>, id: TaskId, ws: Seq<Option<TaskId>>)
    requires
        forall|i: int| 0 <= i < es.len() ==> #[trigger] es[i].child != id,
    ensures
        prune(es, id, ws) == es,
    decreases es.len(),
{
    if es.len() > 0 {
        lemma_prune_untouched(es.drop_last(), id, ws);
        assert(es.drop_last().push(es.last()) =~= es);
    }
}

/// A task no edge names cannot be reached from anything but itself, so
/// attaching it under tasks other than itself closes no cycle.
proof fn lemma_fresh_no_cycle(es: Seq<Edge>, id: TaskId, ids: Seq<TaskId>)
    requires
        edges_avoid(es, id),
        forall|k: int| 0 <= k < ids.len() ==> #[trigger] ids[k] != id,
    ensures
        first_cycle(es, id, ids) is None,
    decreases ids.len(),
{
    if ids.len() > 0 {
        assert forall|k: int| 0 <= k < ids.drop_last().len() implies #[trigger] ids.drop_last()[k]
            != id by {
            assert(ids.drop_last()[k] == ids[k]);
        }
        lemma_fresh_no_cycle(es, id, ids.drop_last());
        let p = ids.last();
        assert(ids[ids.len() - 1] != id);
        if reaches(es, p, id) {
            let path = choose|path: Seq<TaskId>| is_up_path(es, path) && path[0] == p && path.last() == id;
            assert(path.len() >= 2);
            assert(step_ok(es, path, path.len() - 2));
            let e = Edge { parent: Some(id), child: path[path.len() - 2] };
            assert(es.contains(e));
            let i = choose|i: int| 0 <= i < es.len() && es[i] == e;
            assert(es[i].child == path[path.len() - 2]);
            assert(es[i].parent == Some(id));
        }
    }
}

// ---------------------------------------------------------------------------
// Editing one task.
// ---------------------------------------------------------------------------

/// A required text after a patch field (`Clear` leaves it as it is).
pub open spec fn patch_text(cur: Seq<char>, f: Field<String>) -> Seq<char> {
    match f {
        Field::Assign(s) => s@,
        _ => cur,
    }
}

/// An optional text after a patch field.
pub open spec fn patch_opt_text(cur: Option<Seq<char>>, f: Field<String>) -> Option<Seq<char>> {
    match f {
        Field::Keep => cur,
        Field::Assign(s) => Some(s@),
        Field::Clear => None,
    }
}

/// An optional value after a patch field.
pub open spec fn patch_value<T>(cur: Option<T>, f: Field<T>) -> Option<T> {
    match f {
        Field::Keep => cur,
        Field::Assign(x) => Some(x),
        Field::Clear => None,
    }
}

/// `t` with `p` applied and `updated_at` set to `now`.
pub open spec fn patched(t: TaskView, p: TaskPatch, now: Timestamp) -> TaskView {
    TaskView {
        title: patch_text(t.title, p.title),
        description: patch_opt_text(t.description, p.description),
        type_key: patch_text(t.type_key, p.type_key),
        start_date: patch_value(t.start_date, p.start_date),
        due_date: patch_value(t.due_date, p.due_date),
        assignee_id: patch_value(t.assignee_id, p.assignee_id),
        updated_at: now,
        ..t
    }
}

/// Every check an edit makes passes on the patched task.
pub open spec fn update_ok(v: StoreView, t: TaskView, p: TaskPatch) -> bool {
    let u = patched(t, p, t.updated_at);
    &&& !is_blank(u.title)
    &&& type_row(v.types, u.type_key) is Some
    &&& !dates_backwards(u.start_date, u.due_date)
    &&& (p.assignee_id matches Field::Assign(a) ==> user_row(v.users, a) is Some)
}

/// `e` is the error of the first check an edit fails, in the order: title,
/// type, dates, newly assigned user.
pub open spec fn update_error(v: StoreView, t: TaskView, p: TaskPatch, e: CoreError) -> bool {
    let u = patched(t, p, t.updated_at);
    if is_blank(u.title) {
        e == CoreError::EmptyTitle
    } else if type_row(v.types, u.type_key) is None {
        e matches CoreError::UnknownTaskType(k) && k@ == u.type_key
    } else if dates_backwards(u.start_date, u.due_date) {
        e == CoreError::InvalidDateRange { start: u.start_date->0, due: u.due_date->0 }
    } else {
        match p.assignee_id {
            Field::Assign(a) => e == CoreError::UnknownUser(a),
            _ => false,
        }
    }
}

/// The store with the row of `t` written back.
pub open spec fn written(v: StoreView, t: TaskView) -> StoreView {
    StoreView { tasks: upsert_task(v.tasks, stored_row(t)), ..v }
}

/// The store after `id`'s parents are replaced by `ids` (top level when
/// empty), newly added parents taking it last among their children.
pub open spec fn reparented_edges(es: Seq<Edge>, id: TaskId, ids: Seq<TaskId>) -> Seq<Edge> {
    add_edges(prune(es, id, wanted_ids(ids)), id, wanted_ids(ids), Placement::End)
}

/// Writing back a live row keeps it live, as written.
proof fn lemma_written_live(v: StoreView, t: TaskView)
    requires
        t.deleted_at is None,
    ensures
        live_task(written(v, t), t.id) == Some(read_row(stored_row(t), v.edges)),
{
    lemma_upsert_task(v.tasks, stored_row(t), t.id);
}

/// A row found under `id` has that id.
proof fn lemma_found_id(v: StoreView, id: TaskId)
    ensures
        any_task(v, id) matches Some(t) ==> t.id == id,
        live_task(v, id) matches Some(t) ==> t.id == id && any_task(v, id) == Some(t),
{
    lemma_task_index_bounds(v.tasks, id);
}

// ---------------------------------------------------------------------------
// Completion.
// ---------------------------------------------------------------------------

/// Step `k` of `path` goes from a task to one of its children.
pub open spec fn down_step(es: Seq<Edge>, path: Seq<TaskId>, k: int) -> bool {
    edge_in(es, Some(path[k]), path[k + 1])
}

/// A walk downward through children, over live tasks only.
pub open spec fn is_down_path(v: StoreView, path: Seq<TaskId>) -> bool {
    &&& path.len() >= 1
    &&& forall|k: int| 0 <= k < path.len() ==> #[trigger] live_task(v, path[k]) is Some
    &&& forall|k: int| 0 <= k < path.len() - 1 ==> #[trigger] down_step(v.edges, path, k)
}

/// `b` is `a` or a descendant of it reached through live tasks.
pub open spec fn in_subtree(v: StoreView, a: TaskId, b: TaskId) -> bool {
    exists|path: Seq<TaskId>| #[trigger] is_down_path(v, path) && path[0] == a && path.last() == b
}

/// `x` is a live task that is not complete.
pub open spec fn is_open(v: StoreView, x: TaskId) -> bool {
    live_task(v, x) matches Some(t) && t.status == TaskStatus::Incomplete
}

/// The open tasks among `ids`, in order.
pub open spec fn open_among(v: StoreView, ids: Seq<TaskId>) -> Seq<TaskId>
    decreases ids.len(),
{
    if ids.len() == 0 {
        seq![]
    } else if is_open(v, ids.last()) {
        open_among(v, ids.drop_last()).push(ids.last())
    } else {
        open_among(v, ids.drop_last())
    }
}

/// The open tasks anywhere under `id` (not `id` itself): what a cascade
/// completes besides `id`, and what blocks completing `id` alone.
pub open spec fn open_descendants(v: StoreView, id: TaskId) -> Set<TaskId> {
    to_complete(v, id, true).remove(id)
}

/// The tasks completing `id` completes: its open live subtree with
/// `cascade`, else `id` alone when open.
pub open spec fn to_complete(v: StoreView, id: TaskId, cascade: bool) -> Set<TaskId> {
    if cascade {
        Set::new(|x: TaskId| in_subtree(v, id, x) && is_open(v, x))
    } else if is_open(v, id) {
        set![id]
    } else {
        Set::empty()
    }
}

/// `t` completed at `now`.
pub open spec fn mark_done(t: TaskView, now: Timestamp) -> TaskView {
    TaskView {
        status: TaskStatus::Complete,
        completed_at: Some(now),
        updated_at: now,
        ..t
    }
}

/// The rows after every task in `s` is completed at `now`.
pub open spec fn complete_rows(rows: Seq<TaskView>, s: Set<TaskId>, now: Timestamp) -> Seq<TaskView> {
    Seq::new(
        rows.len(),
        |i: int|
            if s.contains(rows[i].id) && task_index(rows, rows[i].id) == i {
                stored_row(mark_done(rows[i], now))
            } else {
                rows[i]
            },
    )
}

/// The store after every task in `s` is completed at `now`.
pub open spec fn completed_state(v: StoreView, s: Set<TaskId>, now: Timestamp) -> StoreView {
    StoreView { tasks: complete_rows(v.tasks, s, now), ..v }
}

/// The ids of a list of tasks.
pub open spec fn ids_of(ts: Seq<TaskView>) -> Seq<TaskId> {
    ts.map_values(|t: TaskView| t.id)
}

proof fn lemma_same_ids_index(a: Seq<TaskView>, b: Seq<TaskView>, x: TaskId)
    requires
        a.len() == b.len(),
        forall|i: int| 0 <= i < a.len() ==> #[trigger] a[i].id == b[i].id,
    ensures
        task_index(a, x) == task_index(b, x),
    decreases a.len(),
{
    if a.len() > 0 {
        assert(a.last().id == b.last().id);
        assert forall|i: int| 0 <= i < a.drop_last().len() implies #[trigger] a.drop_last()[i].id
            == b.drop_last()[i].id by {
            assert(a.drop_last()[i] == a[i]);
            assert(b.drop_last()[i] == b[i]);
        }
        lemma_same_ids_index(a.drop_last(), b.drop_last(), x);
    }
}

/// What a lookup finds after completing the tasks in `s`.
pub proof fn lemma_complete_rows_lookup(v: StoreView, s: Set<TaskId>, now: Timestamp, y: TaskId)
    ensures
        task_index(complete_rows(v.tasks, s, now), y) == task_index(v.tasks, y),
        !s.contains(y) ==> live_task(completed_state(v, s, now), y) == live_task(v, y),
        live_task(completed_state(v, s, now), y) is Some <==> live_task(v, y) is Some,
{
    let c = complete_rows(v.tasks, s, now);
    assert forall|i: int| 0 <= i < c.len() implies #[trigger] c[i].id == v.tasks[i].id by {}
    lemma_same_ids_index(c, v.tasks, y);
    lemma_task_index_bounds(v.tasks, y);
}

/// Completing one more open task `x` is one upsert.
proof fn lemma_complete_rows_step(v: StoreView, s: Set<TaskId>, now: Timestamp, x: TaskId)
    requires
        !s.contains(x),
        live_task(v, x) is Some,
    ensures
        upsert_task(
            complete_rows(v.tasks, s, now),
            stored_row(mark_done(live_task(completed_state(v, s, now), x)->0, now)),
        ) == complete_rows(v.tasks, s.insert(x), now),
{
    let c = complete_rows(v.tasks, s, now);
    lemma_complete_rows_lookup(v, s, now, x);
    lemma_task_index_bounds(v.tasks, x);
    let i = task_index(v.tasks, x);
    let row = stored_row(mark_done(live_task(completed_state(v, s, now), x)->0, now));
    assert(row.id == x);
    assert(task_index(c, x) == i);
    let lhs = upsert_task(c, row);
    let rhs = complete_rows(v.tasks, s.insert(x), now);
    assert(lhs.len() == rhs.len());
    assert forall|j: int| 0 <= j < lhs.len() implies lhs[j] == rhs[j] by {
        if j == i {
            assert(c[i] == v.tasks[i]);
        }
    }
    assert(lhs =~= rhs);
}

/// Every step of a walk from `id` stays in the subtree.
proof fn lemma_subtree_refl(v: StoreView, a: TaskId)
    requires
        live_task(v, a) is Some,
    ensures
        in_subtree(v, a, a),
{
    let path = seq![a];
    assert(is_down_path(v, path));
    assert(path[0] == a && path.last() == a);
}

proof fn lemma_subtree_step(v: StoreView, a: TaskId, y: TaskId, c: TaskId)
    requires
        in_subtree(v, a, y),
        edge_in(v.edges, Some(y), c),
        live_task(v, c) is Some,
    ensures
        in_subtree(v, a, c),
{
    let path = choose|path: Seq<TaskId>| is_down_path(v, path) && path[0] == a && path.last() == y;
    let np = path.push(c);
    assert forall|k: int| 0 <= k < np.len() implies #[trigger] live_task(v, np[k]) is Some by {
        if k < path.len() {
            assert(np[k] == path[k]);
        }
    }
    assert forall|k: int| 0 <= k < np.len() - 1 implies #[trigger] down_step(v.edges, np, k) by {
        if k < path.len() - 1 {
            assert(down_step(v.edges, path, k));
        }
    }
    assert(is_down_path(v, np));
    assert(np[0] == a && np.last() == c);
}

/// A list holding `a` and, for each live task it holds, every child of
/// it, holds the whole live subtree of `a`.
proof fn lemma_queue_covers(v: StoreView, a: TaskId, q: Seq<TaskId>, b: TaskId)
    requires
        q.contains(a),
        forall|y: TaskId, c: TaskId|
            q.contains(y) && live_task(v, y) is Some && #[trigger] edge_in(v.edges, Some(y), c)
                ==> q.contains(c),
        in_subtree(v, a, b),
    ensures
        q.contains(b),
{
    let path = choose|path: Seq<TaskId>| is_down_path(v, path) && path[0] == a && path.last() == b;
    lemma_path_covered(v, q, path, path.len() - 1);
}

proof fn lemma_path_covered(v: StoreView, q: Seq<TaskId>, path: Seq<TaskId>, i: int)
    requires
        is_down_path(v, path),
        0 <= i < path.len(),
        q.contains(path[0]),
        forall|y: TaskId, c: TaskId|
            q.contains(y) && live_task(v, y) is Some && #[trigger] edge_in(v.edges, Some(y), c)
                ==> q.contains(c),
    ensures
        q.contains(path[i]),
    decreases i,
{
    if i > 0 {
        lemma_path_covered(v, q, path, i - 1);
        assert(down_step(v.edges, path, i - 1));
        assert(live_task(v, path[i - 1]) is Some);
    }
}

proof fn lemma_open_among_contains(v: StoreView, ids: Seq<TaskId>, x: TaskId)
    ensures
        open_among(v, ids).contains(x) <==> ids.contains(x) && is_open(v, x),
    decreases ids.len(),
{
    if ids.len() > 0 {
        lemma_open_among_contains(v, ids.drop_last(), x);
        if ids.contains(x) && ids.last() != x {
            let i = choose|i: int| 0 <= i < ids.len() && ids[i] == x;
            assert(ids.drop_last()[i] == x);
        }
        if ids.drop_last().contains(x) {
            let i = choose|i: int| 0 <= i < ids.drop_last().len() && ids.drop_last()[i] == x;
            assert(ids[i] == x);
        }
        if is_open(v, ids.last()) {
            let o = open_among(v, ids.drop_last());
            if o.push(ids.last()).contains(x) && x != ids.last() {
                let i = choose|i: int| 0 <= i < o.push(ids.last()).len() && o.push(ids.last())[i] == x;
                assert(o[i] == x);
            }
            if o.contains(x) {
                let i = choose|i: int| 0 <= i < o.len() && o[i] == x;
                assert(o.push(ids.last())[i] == x);
            }
            assert(o.push(ids.last())[o.len() as int] == ids.last());
        }
        assert(ids[ids.len() - 1] == ids.last());
    }
}

/// A child named by an edge is in the walk's universe.
proof fn lemma_child_in_universe(es: Seq<Edge>, id: TaskId, p: Option<TaskId>, c: TaskId)
    requires
        edge_in(es, p, c),
    ensures
        es.map_values(|e: Edge| e.child).push(id).contains(c),
{
    let e = Edge { parent: p, child: c };
    let i = choose|i: int| 0 <= i < es.len() && es[i] == e;
    assert(es.map_values(|e: Edge| e.child).push(id)[i] == c);
}

/// Ids that all name live tasks read back as those tasks, in order.
proof fn lemma_live_rows_ids(v: StoreView, ids: Seq<TaskId>)
    requires
        forall|k: int| 0 <= k < ids.len() ==> live_task(v, #[trigger] ids[k]) is Some,
    ensures
        ids_of(live_rows(v, ids)) == ids,
    decreases ids.len(),
{
    if ids.len() > 0 {
        assert forall|k: int| 0 <= k < ids.drop_last().len() implies live_task(
            v,
            #[trigger] ids.drop_last()[k],
        ) is Some by {
            assert(ids.drop_last()[k] == ids[k]);
        }
        lemma_live_rows_ids(v, ids.drop_last());
        assert(live_task(v, ids[ids.len() - 1]) is Some);
        lemma_found_id(v, ids.last());
        let r = live_rows(v, ids.drop_last());
        assert(ids_of(r.push(live_task(v, ids.last())->0)) =~= ids_of(r).push(ids.last()));
        assert(ids.drop_last().push(ids.last()) =~= ids);
    }
}

// ---------------------------------------------------------------------------
// Deletion.
// ---------------------------------------------------------------------------

/// Applies `f` to the row of each task in `s` (the row a lookup finds).
pub open spec fn mark_rows(
    rows: Seq<TaskView>,
    s: Set<TaskId>,
    f: spec_fn(TaskView) -> TaskView,
) -> Seq<TaskView> {
    Seq::new(
        rows.len(),
        |i: int|
            if s.contains(rows[i].id) && task_index(rows, rows[i].id) == i {
                stored_row(f(rows[i]))
            } else {
                rows[i]
            },
    )
}

/// Soft-deletes a row at `now`.
pub open spec fn tomb_fn(now: Timestamp) -> spec_fn(TaskView) -> TaskView {
    |t: TaskView| TaskView { deleted_at: Some(now), updated_at: now, ..t }
}

/// Bumps a row's `updated_at` to `now`.
pub open spec fn touch_fn(now: Timestamp) -> spec_fn(TaskView) -> TaskView {
    |t: TaskView| TaskView { updated_at: now, ..t }
}

/// The rows found for `ids` (deleted or not), in order, skipping ids with
/// no row.
pub open spec fn any_rows(v: StoreView, ids: Seq<TaskId>) -> Seq<TaskView>
    decreases ids.len(),
{
    if ids.len() == 0 {
        seq![]
    } else {
        match any_task(v, ids.last()) {
            Some(t) => any_rows(v, ids.drop_last()).push(t),
            None => any_rows(v, ids.drop_last()),
        }
    }
}

/// `x` has at least one parent, and every parent of it is in `s`.
pub open spec fn stripped(es: Seq<Edge>, s: Set<TaskId>, x: TaskId) -> bool {
    &&& exists|p: TaskId| #[trigger] edge_in(es, Some(p), x)
    &&& forall|p: TaskId| #[trigger] edge_in(es, Some(p), x) ==> s.contains(p)
}

/// `s` holds `id` and every task with a row all of whose parents it holds.
pub open spec fn doom_closed(v: StoreView, id: TaskId, s: Set<TaskId>) -> bool {
    &&& s.contains(id)
    &&& forall|x: TaskId| any_task(v, x) is Some && #[trigger] stripped(v.edges, s, x) ==> s.contains(x)
}

/// What a subtree delete of `id` soft-deletes: the least set holding `id`
/// and every task with a row all of whose parents it holds.
pub open spec fn doomed(v: StoreView, id: TaskId) -> Set<TaskId> {
    Set::new(|x: TaskId| forall|s: Set<TaskId>| #[trigger] doom_closed(v, id, s) ==> s.contains(x))
}

/// The live tasks that lose a parent to a subtree delete of `id` but keep
/// another.
pub open spec fn spared(v: StoreView, id: TaskId) -> Set<TaskId> {
    Set::new(
        |c: TaskId|
            !doomed(v, id).contains(c) && live_task(v, c) is Some && exists|p: TaskId|
                doomed(v, id).contains(p) && #[trigger] edge_in(v.edges, Some(p), c),
    )
}

/// The store after a subtree delete of `id` at `now`: the doomed tasks are
/// soft-deleted, their edges to their children dropped, and the spared
/// children's `updated_at` bumped.
pub open spec fn subtree_deleted(v: StoreView, id: TaskId, now: Timestamp) -> StoreView {
    StoreView {
        tasks: mark_rows(
            mark_rows(v.tasks, doomed(v, id), tomb_fn(now)),
            spared(v, id),
            touch_fn(now),
        ),
        edges: cut_edges(v.edges, doomed(v, id)),
        ..v
    }
}

pub proof fn lemma_mark_rows_ids(rows: Seq<TaskView>, s: Set<TaskId>, f: spec_fn(TaskView) -> TaskView, y: TaskId)
    requires
        forall|t: TaskView| #[trigger] f(t).id == t.id,
    ensures
        mark_rows(rows, s, f).len() == rows.len(),
        task_index(mark_rows(rows, s, f), y) == task_index(rows, y),
        task_index(rows, y) >= 0 ==> mark_rows(rows, s, f)[task_index(rows, y)] == (if s.contains(y) {
            stored_row(f(rows[task_index(rows, y)]))
        } else {
            rows[task_index(rows, y)]
        }),
{
    let m = mark_rows(rows, s, f);
    assert forall|i: int| 0 <= i < m.len() implies #[trigger] m[i].id == rows[i].id by {
        assert(f(rows[i]).id == rows[i].id);
    }
    lemma_same_ids_index(m, rows, y);
    lemma_task_index_bounds(rows, y);
}

/// Marking one more task is one upsert of its marked row.
proof fn lemma_mark_rows_step(
    rows: Seq<TaskView>,
    s: Set<TaskId>,
    f: spec_fn(TaskView) -> TaskView,
    x: TaskId,
    w: TaskView,
)
    requires
        forall|t: TaskView| #[trigger] f(t).id == t.id,
        !s.contains(x),
        task_index(rows, x) >= 0,
        stored_row(w) == stored_row(f(rows[task_index(rows, x)])),
    ensures
        upsert_task(mark_rows(rows, s, f), stored_row(w)) == mark_rows(rows, s.insert(x), f),
{
    let m = mark_rows(rows, s, f);
    lemma_mark_rows_ids(rows, s, f, x);
    lemma_task_index_bounds(rows, x);
    let i = task_index(rows, x);
    assert(f(rows[i]).id == rows[i].id);
    assert(stored_row(w).id == x);
    let lhs = upsert_task(m, stored_row(w));
    let rhs = mark_rows(rows, s.insert(x), f);
    assert forall|j: int| 0 <= j < lhs.len() implies lhs[j] == rhs[j] by {
        if j == i {
            assert(m[i] == rows[i]);
        }
    }
    assert(lhs =~= rhs);
}

/// The lookups of a marked store.
proof fn lemma_mark_rows_lookup(v: StoreView, s: Set<TaskId>, f: spec_fn(TaskView) -> TaskView, y: TaskId)
    requires
        forall|t: TaskView| #[trigger] f(t).id == t.id,
    ensures
        !s.contains(y) ==> any_task(StoreView { tasks: mark_rows(v.tasks, s, f), ..v }, y) == any_task(v, y),
        !s.contains(y) ==> live_task(StoreView { tasks: mark_rows(v.tasks, s, f), ..v }, y) == live_task(v, y),
        any_task(StoreView { tasks: mark_rows(v.tasks, s, f), ..v }, y) is Some <==> any_task(v, y) is Some,
        s.contains(y) && any_task(v, y) is Some ==> any_task(StoreView { tasks: mark_rows(v.tasks, s, f), ..v }, y) == Some(
            read_row(stored_row(f(task_row(v.tasks, y)->0)), v.edges),
        ),
{
    lemma_mark_rows_ids(v.tasks, s, f, y);
}

/// A set is closed under the doom rule and holds whatever `doomed` holds.
proof fn lemma_stripped_mono(es: Seq<Edge>, a: Set<TaskId>, b: Set<TaskId>, x: TaskId)
    requires
        stripped(es, a, x),
        a.subset_of(b),
    ensures
        stripped(es, b, x),
{
    assert forall|p: TaskId| #[trigger] edge_in(es, Some(p), x) implies b.contains(p) by {
        assert(a.contains(p));
    }
}

/// Dropping edges keeps the hierarchy acyclic.
proof fn lemma_cut_keeps_acyclic(es: Seq<Edge>, s: Set<TaskId>)
    requires
        acyclic(es),
    ensures
        acyclic(cut_edges(es, s)),
{
    let c = cut_edges(es, s);
    assert forall|path: Seq<TaskId>| #[trigger] is_up_path(c, path) && path.len() >= 2 implies path[0]
        != path.last() by {
        assert forall|i: int| 0 <= i < path.len() - 1 implies #[trigger] step_ok(es, path, i) by {
            assert(step_ok(c, path, i));
            lemma_cut_edges(es, s, Edge { parent: Some(path[i + 1]), child: path[i] });
        }
        assert(is_up_path(es, path));
    }
}

proof fn lemma_no_dup_push_ids(s: Seq<TaskId>, a: TaskId)
    requires
        s.no_duplicates(),
        !s.contains(a),
    ensures
        s.push(a).no_duplicates(),
{
    assert forall|i: int, j: int|
        0 <= i < s.push(a).len() && 0 <= j < s.push(a).len() && i != j implies s.push(a)[i]
        != s.push(a)[j] by {
        if i == s.len() as int {
            assert(s.contains(s[j]));
        } else if j == s.len() as int {
            assert(s.contains(s[i]));
        }
    }
}

/// Whether every one of `ps` is in `taken`.
fn all_taken(ps: &Vec<TaskId>, taken: &Vec<TaskId>) -> (r: bool)
    ensures
        r == (forall|j: int| 0 <= j < ps@.len() ==> taken@.contains(#[trigger] ps@[j])),
{
    let mut j: usize = 0;
    while j < ps.len()
        invariant
            j <= ps.len(),
            forall|k: int| 0 <= k < j ==> taken@.contains(#[trigger] ps@[k]),
        decreases ps.len() - j,
    {
        if !contains_id(taken, ps[j]) {
            return false;
        }
        j = j + 1;
    }
    true
}

/// The live tasks outside `tset` that sit under one of `ts`.
pub open spec fn spared_by(v: StoreView, ts: Seq<TaskId>, tset: Set<TaskId>, c: TaskId) -> bool {
    &&& !tset.contains(c)
    &&& live_task(v, c) is Some
    &&& exists|j: int| 0 <= j < ts.len() && #[trigger] edge_in(v.edges, Some(ts[j]), c)
}

/// `a` followed by each of `add` it lacks, in order.
pub open spec fn merge_ids(a: Seq<TaskId>, add: Seq<TaskId>) -> Seq<TaskId>
    decreases add.len(),
{
    if add.len() == 0 {
        a
    } else {
        let m = merge_ids(a, add.drop_last());
        if m.contains(add.last()) {
            m
        } else {
            m.push(add.last())
        }
    }
}

/// `ps` without `x`.
pub open spec fn without(ps: Seq<TaskId>, x: TaskId) -> Seq<TaskId>
    decreases ps.len(),
{
    if ps.len() == 0 {
        ps
    } else if ps.last() == x {
        without(ps.drop_last(), x)
    } else {
        without(ps.drop_last(), x).push(ps.last())
    }
}

/// The edges after each of `kids`, in order, trades its parent `id` for
/// `id`'s own parents `gps` (keeping its other parents).
pub open spec fn promoted_edges(es: Seq<Edge>, id: TaskId, gps: Seq<TaskId>, kids: Seq<TaskId>) -> Seq<
    Edge,
>
    decreases kids.len(),
{
    if kids.len() == 0 {
        es
    } else {
        let e1 = promoted_edges(es, id, gps, kids.drop_last());
        let c = kids.last();
        reparented_edges(e1, c, merge_ids(without(parents_in(e1, c), id), gps))
    }
}

/// The live children of `id` (other than itself) a promoting delete
/// rewrites.
pub open spec fn promote_spared(v: StoreView, id: TaskId) -> Set<TaskId> {
    Set::new(
        |c: TaskId| children_in(v.edges, Some(id)).contains(c) && c != id && live_task(v, c) is Some,
    )
}

/// The store after a promoting delete of `id` at `now`: `id` is
/// soft-deleted, each of its children moves from `id` to `id`'s parents
/// (to the top level when it is left with none), and the live ones get
/// their `updated_at` bumped.
pub open spec fn children_promoted(v: StoreView, id: TaskId, now: Timestamp) -> StoreView {
    StoreView {
        tasks: mark_rows(
            mark_rows(v.tasks, set![id], tomb_fn(now)),
            promote_spared(v, id),
            touch_fn(now),
        ),
        edges: promoted_edges(v.edges, id, parents_in(v.edges, id), children_in(v.edges, Some(id))),
        ..v
    }
}

/// The store after deleting `id` at `now` in `mode`.
pub open spec fn deleted_state(v: StoreView, id: TaskId, mode: DeleteMode, now: Timestamp) -> StoreView {
    match mode {
        DeleteMode::Subtree => subtree_deleted(v, id, now),
        DeleteMode::PromoteChildren => children_promoted(v, id, now),
    }
}

/// The tasks deleting `id` in `mode` writes.
pub open spec fn delete_touched(v: StoreView, id: TaskId, mode: DeleteMode) -> Set<TaskId> {
    match mode {
        DeleteMode::Subtree => doomed(v, id).union(spared(v, id)),
        DeleteMode::PromoteChildren => set![id].union(promote_spared(v, id)),
    }
}

pub proof fn lemma_merge_ids(a: Seq<TaskId>, add: Seq<TaskId>, x: TaskId)
    ensures
        merge_ids(a, add).contains(x) <==> a.contains(x) || add.contains(x),
    decreases add.len(),
{
    if add.len() > 0 {
        lemma_merge_ids(a, add.drop_last(), x);
        let m = merge_ids(a, add.drop_last());
        if add.contains(x) && add.last() != x {
            let i = choose|i: int| 0 <= i < add.len() && add[i] == x;
            assert(add.drop_last()[i] == x);
        }
        if add.drop_last().contains(x) {
            let i = choose|i: int| 0 <= i < add.drop_last().len() && add.drop_last()[i] == x;
            assert(add[i] == x);
        }
        assert(add[add.len() - 1] == add.last());
        if !m.contains(add.last()) {
            if m.push(add.last()).contains(x) && x != add.last() {
                let i = choose|i: int| 0 <= i < m.push(add.last()).len() && m.push(add.last())[i] == x;
                assert(m[i] == x);
            }
            if m.contains(x) {
                let i = choose|i: int| 0 <= i < m.len() && m[i] == x;
                assert(m.push(add.last())[i] == x);
            }
            assert(m.push(add.last())[m.len() as int] == add.last());
        }
    }
}

pub proof fn lemma_without(ps: Seq<TaskId>, x: TaskId, y: TaskId)
    ensures
        without(ps, x).contains(y) <==> ps.contains(y) && y != x,
    decreases ps.len(),
{
    if ps.len() > 0 {
        lemma_without(ps.drop_last(), x, y);
        let w = without(ps.drop_last(), x);
        if ps.contains(y) && ps.last() != y {
            let i = choose|i: int| 0 <= i < ps.len() && ps[i] == y;
            assert(ps.drop_last()[i] == y);
        }
        if ps.drop_last().contains(y) {
            let i = choose|i: int| 0 <= i < ps.drop_last().len() && ps.drop_last()[i] == y;
            assert(ps[i] == y);
        }
        assert(ps[ps.len() - 1] == ps.last());
        if ps.last() != x {
            if w.push(ps.last()).contains(y) && y != ps.last() {
                let i = choose|i: int| 0 <= i < w.push(ps.last()).len() && w.push(ps.last())[i] == y;
                assert(w[i] == y);
            }
            if w.contains(y) {
                let i = choose|i: int| 0 <= i < w.len() && w[i] == y;
                assert(w.push(ps.last())[i] == y);
            }
            assert(w.push(ps.last())[w.len() as int] == ps.last());
        }
    }
}

/// No new parent that closes a cycle: each is a parent already or does
/// not reach the child.
proof fn lemma_first_cycle_none_of(es: Seq<Edge>, c: TaskId, ids: Seq<TaskId>)
    requires
        forall|k: int| 0 <= k < ids.len() ==> edge_in(es, Some(#[trigger] ids[k]), c) || !reaches(es, ids[k], c),
    ensures
        first_cycle(es, c, ids) is None,
    decreases ids.len(),
{
    if ids.len() > 0 {
        assert forall|k: int| 0 <= k < ids.drop_last().len() implies edge_in(es, Some(#[trigger] ids.drop_last()[k]), c)
            || !reaches(es, ids.drop_last()[k], c) by {
            assert(ids.drop_last()[k] == ids[k]);
        }
        lemma_first_cycle_none_of(es, c, ids.drop_last());
        assert(ids[ids.len() - 1] == ids.last());
    }
}

/// In an acyclic hierarchy a child of `id` is not reached from a parent
/// of `id`.
proof fn lemma_no_way_back(es: Seq<Edge>, c: TaskId, id: TaskId, w: TaskId)
    requires
        acyclic(es),
        edge_in(es, Some(id), c),
        edge_in(es, Some(w), id),
    ensures
        !reaches(es, w, c),
{
    if reaches(es, w, c) {
        let path = choose|path: Seq<TaskId>| is_up_path(es, path) && path[0] == w && path.last() == c;
        let cyc = seq![c, id] + path;
        assert forall|i: int| 0 <= i < cyc.len() - 1 implies #[trigger] step_ok(es, cyc, i) by {
            if i >= 2 {
                assert(step_ok(es, path, i - 2));
            }
        }
        assert(is_up_path(es, cyc));
        assert(cyc.len() >= 2 && cyc[0] == cyc.last());
    }
}

fn without_exec(ps: &Vec<TaskId>, x: TaskId) -> (r: Vec<TaskId>)
    ensures
        r@ == without(ps@, x),
{
    let mut r: Vec<TaskId> = Vec::new();
    let mut i: usize = 0;
    while i < ps.len()
        invariant
            i <= ps.len(),
            r@ == without(ps@.subrange(0, i as int), x),
        decreases ps.len() - i,
    {
        let ghost sub = ps@.subrange(0, i + 1);
        assert(sub.drop_last() == ps@.subrange(0, i as int));
        assert(sub.last() == ps@[i as int]);
        if ps[i] != x {
            r.push(ps[i]);
        }
        i = i + 1;
    }
    assert(ps@.subrange(0, ps.len() as int) == ps@);
    r
}

fn merge_exec(a: Vec<TaskId>, add: &Vec<TaskId>) -> (r: Vec<TaskId>)
    ensures
        r@ == merge_ids(a@, add@),
{
    let ghost a0 = a@;
    let mut r = a;
    let mut k: usize = 0;
    while k < add.len()
        invariant
            k <= add.len(),
            r@ == merge_ids(a0, add@.subrange(0, k as int)),
        decreases add.len() - k,
    {
        let ghost sub = add@.subrange(0, k + 1);
        assert(sub.drop_last() == add@.subrange(0, k as int));
        assert(sub.last() == add@[k as int]);
        if !contains_id(&r, add[k]) {
            r.push(add[k]);
        }
        k = k + 1;
    }
    assert(add@.subrange(0, add.len() as int) == add@);
    r
}

/// Ids that all have rows read back as those rows, in order.
proof fn lemma_any_rows_ids(v: StoreView, ids: Seq<TaskId>)
    requires
        forall|k: int| 0 <= k < ids.len() ==> any_task(v, #[trigger] ids[k]) is Some,
    ensures
        ids_of(any_rows(v, ids)) == ids,
    decreases ids.len(),
{
    if ids.len() > 0 {
        assert forall|k: int| 0 <= k < ids.drop_last().len() implies any_task(
            v,
            #[trigger] ids.drop_last()[k],
        ) is Some by {
            assert(ids.drop_last()[k] == ids[k]);
        }
        lemma_any_rows_ids(v, ids.drop_last());
        assert(any_task(v, ids[ids.len() - 1]) is Some);
        lemma_found_id(v, ids.last());
        let r = any_rows(v, ids.drop_last());
        assert(ids_of(r.push(any_task(v, ids.last())->0)) =~= ids_of(r).push(ids.last()));
        assert(ids.drop_last().push(ids.last()) =~= ids);
    }
}

/// A task a delete writes still has a row afterwards.
proof fn lemma_delete_keeps_rows(v: StoreView, id: TaskId, mode: DeleteMode, now: Timestamp, y: TaskId)
    requires
        delete_touched(v, id, mode).contains(y),
        live_task(v, id) is Some,
        mode is Subtree ==> forall|x: TaskId| doomed(v, id).contains(x) ==> any_task(v, x) is Some,
    ensures
        any_task(deleted_state(v, id, mode, now), y) is Some,
{
    lemma_found_id(v, id);
    let (s1, f1, s2, f2) = match mode {
        DeleteMode::Subtree => (doomed(v, id), tomb_fn(now), spared(v, id), touch_fn(now)),
        DeleteMode::PromoteChildren => (set![id], tomb_fn(now), promote_spared(v, id), touch_fn(now)),
    };
    let v1 = StoreView { tasks: mark_rows(v.tasks, s1, f1), ..v };
    lemma_mark_rows_lookup(v, s1, f1, y);
    lemma_mark_rows_lookup(v1, s2, f2, y);
    if s2.contains(y) {
        lemma_found_id(v, y);
    }
    assert(any_task(v, y) is Some);
}

/// Facade over an in-memory store.
pub struct Core {
    store: InMemoryStore,
}

impl View for Core {
    type V = StoreView;

    closed spec fn view(&self) -> StoreView {
        self.store@
    }
}

/// The default type as a value.
fn make_default_type() -> (t: TaskType)
    ensures
        t@ == default_type(),
{
    TaskType { key: owned("task"), label: owned("Task"), color: None, sort_order: 0 }
}

impl Core {
    /// A `Core` over `store`, seeding the default `"task"` type when no type
    /// with that key exists yet (so seeding twice changes nothing).
    pub fn new(store: InMemoryStore) -> (r: Result<Core, CoreError>)
        ensures
            r matches Ok(c) && c@ == seeded(store@) && store_valid(c@),
    {
        let mut store = store;
        if !store.has_task_type("task") {
            let t = make_default_type();
            store.put_task_type(&t);
        }
        proof {
            use_type_invariant(&store);
        }
        Ok(Core { store })
    }

    /// A separate `Core` over a store holding the same contents.
    pub fn duplicate(&self) -> (c: Core)
        ensures
            c@ == self@,
    {
        Core { store: self.store.duplicate() }
    }

    /// The store behind this `Core`, for persisting it.
    pub fn into_store(self) -> (s: InMemoryStore)
        ensures
            s@ == self@,
    {
        self.store
    }

    /// The store behind this `Core`, read-only.
    pub fn store(&self) -> (s: &InMemoryStore)
        ensures
            s@ == self@,
            store_valid(self@),
    {
        proof {
            use_type_invariant(&self.store);
        }
        &self.store
    }

    /// The live tasks among `ids`, in order.
    fn live_tasks(&self, ids: &Vec<TaskId>) -> (r: Vec<Task>)
        ensures
            views(r@) == live_rows(self@, ids@),
    {
        let mut r: Vec<Task> = Vec::new();
        let mut i: usize = 0;
        while i < ids.len()
            invariant
                i <= ids.len(),
                views(r@) == live_rows(self@, ids@.subrange(0, i as int)),
            decreases ids.len() - i,
        {
            let ghost sub = ids@.subrange(0, i + 1);
            assert(sub.drop_last() == ids@.subrange(0, i as int));
            assert(sub.last() == ids@[i as int]);
            match self.store.get_task(ids[i]) {
                Some(t) => {
                    let ghost before = r@;
                    r.push(t);
                    proof {
                        lemma_map_push(before, t, |t: Task| t@);
                    }
                },
                None => {},
            }
            i = i + 1;
        }
        assert(ids@.subrange(0, ids.len() as int) == ids@);
        r
    }

    /// `t` with its progress computed.
    fn show(&self, t: Task) -> (r: Task)
        ensures
            r@ == shown(self@, t@),
    {
        let kids = self.store.list_child_edges(Some(t.id));
        let children = self.live_tasks(&kids);
        let p = direct_children_progress(&children, t.status);
        let mut t = t;
        t.progress = p;
        t
    }

    /// Each of `ts` with its progress computed.
    fn show_all(&self, ts: &Vec<Task>) -> (r: Vec<Task>)
        ensures
            views(r@) == shown_all(self@, views(ts@)),
    {
        let mut r: Vec<Task> = Vec::new();
        let mut i: usize = 0;
        while i < ts.len()
            invariant
                i <= ts.len(),
                views(r@) == shown_all(self@, views(ts@).subrange(0, i as int)),
            decreases ts.len() - i,
        {
            let ghost before = r@;
            let s = self.show(ts[i].duplicate());
            r.push(s);
            proof {
                lemma_map_push(before, s, |t: Task| t@);
                assert(views(ts@).subrange(0, i + 1) =~= views(ts@).subrange(0, i as int).push(
                    ts@[i as int]@,
                ));
                assert(shown_all(self@, views(ts@).subrange(0, i + 1)) =~= shown_all(
                    self@,
                    views(ts@).subrange(0, i as int),
                ).push(shown(self@, ts@[i as int]@)));
            }
            i = i + 1;
        }
        assert(views(ts@).subrange(0, ts.len() as int) =~= views(ts@));
        r
    }

    /// The live task `id`, if any.
    pub fn get_task(&self, id: TaskId) -> (r: Result<Option<Task>, CoreError>)
        ensures
            r matches Ok(o) && match live_task(self@, id) {
                Some(t) => o matches Some(x) && x@ == shown(self@, t),
                None => o is None,
            },
    {
        match self.store.get_task(id) {
            Some(t) => Ok(Some(self.show(t))),
            None => Ok(None),
        }
    }

    /// The live direct children of `id`, in sibling order.
    pub fn list_children(&self, id: TaskId) -> (r: Result<Vec<Task>, CoreError>)
        ensures
            r matches Ok(v) && views(v@) == shown_all(self@, live_children(self@, id)),
    {
        let kids = self.store.list_child_edges(Some(id));
        let children = self.live_tasks(&kids);
        Ok(self.show_all(&children))
    }

    /// Every task `filter` admits, in store order.
    pub fn get_tree(&self, filter: TreeFilter) -> (r: Result<Vec<Task>, CoreError>)
        ensures
            r matches Ok(v) && views(v@) == shown_all(
                self@,
                listed(self@.tasks, self@.edges, filter),
            ),
    {
        let ts = self.store.list_tasks(&filter);
        Ok(self.show_all(&ts))
    }

    /// Every user.
    pub fn list_users(&self) -> (r: Result<Vec<User>, CoreError>)
        ensures
            r matches Ok(v) && v@.map_values(|u: User| u@) == self@.users,
    {
        Ok(self.store.list_users())
    }

    /// Every configured task type.
    pub fn list_task_types(&self) -> (r: Result<Vec<TaskType>, CoreError>)
        ensures
            r matches Ok(v) && v@.map_values(|t: TaskType| t@) == self@.types,
    {
        Ok(self.store.get_task_types())
    }

    /// Inserts or replaces the task type with `t.key`, returning it.
    pub fn upsert_task_type(&mut self, t: TaskType) -> (r: Result<TaskType, CoreError>)
        ensures
            r matches Ok(x) && x@ == t@,
            final(self)@ == (StoreView { types: upsert_type(old(self)@.types, t@), ..old(self)@ }),
    {
        self.store.put_task_type(&t);
        Ok(t)
    }

    /// Creates a user with a fresh random id. A blank name (empty or only
    /// white space) is refused and nothing is written.
    pub fn create_user(&mut self, name: String) -> (r: Result<User, CoreError>)
        ensures
            is_blank(name@) ==> r == Err::<User, CoreError>(CoreError::EmptyUserName)
                && final(self)@ == old(self)@,
            !is_blank(name@) ==> (r matches Ok(u) && u.name@ == name@ && final(self)@ == (StoreView {
                users: upsert_user(old(self)@.users, u@),
                ..old(self)@
            })),
    {
        if is_blank_text(name.as_str()) {
            return Err(CoreError::EmptyUserName);
        }
        let user = User { id: UserId::new(), name };
        self.store.put_user(&user);
        Ok(user)
    }

    /// Creates a task from `new` under the given `id` at time `now`. Checks,
    /// in order, the title, the type key (default `"task"`), the date range,
    /// each parent (it must be a live task) and the assignee; the first that
    /// fails is the error and nothing is written. An `id` some row or edge
    /// already names is refused with a store error. The task handed back
    /// lists its parents as given; the store holds one edge per parent, so
    /// a parent named twice is read back once.
    pub fn create_task_with_id(&mut self, new: NewTask, id: TaskId, now: Timestamp) -> (r: Result<
        Task,
        CoreError,
    >)
        ensures
            !create_ok(old(self)@, new) ==> (r matches Err(e) && create_error(old(self)@, new, e))
                && final(self)@ == old(self)@,
            create_ok(old(self)@, new) && id_in_use(old(self)@, id) ==> (r matches Err(
                CoreError::Store(StoreError::Backend(m)),
            ) && m@ == "task id already in use"@) && final(self)@ == old(self)@,
            create_ok(old(self)@, new) && !id_in_use(old(self)@, id) ==> (r matches Ok(t) && (
            final(self)@ == created(old(self)@, new, id, now) && (live_task(final(self)@, id) matches Some(
                x,
            ) && t@ == (TaskView { parent_ids: new.parent_ids@, ..shown(final(self)@, x) })))),
            acyclic(old(self)@.edges) ==> acyclic(final(self)@.edges),
    {
        if is_blank_text(new.title.as_str()) {
            return Err(CoreError::EmptyTitle);
        }
        let type_key = match &new.type_key {
            Some(k) => k.clone(),
            None => owned("task"),
        };
        if !self.store.has_task_type(type_key.as_str()) {
            return Err(CoreError::UnknownTaskType(type_key));
        }
        match (new.start_date, new.due_date) {
            (Some(start), Some(due)) => {
                if due.days < start.days {
                    return Err(CoreError::InvalidDateRange { start, due });
                }
            },
            _ => {},
        }
        let mut i: usize = 0;
        while i < new.parent_ids.len()
            invariant
                i <= new.parent_ids.len(),
                first_missing(self@, new.parent_ids@.subrange(0, i as int)) is None,
                self@ == old(self)@,
                !is_blank(new.title@),
                type_row(self@.types, new_type_key(new)) is Some,
                !dates_backwards(new.start_date, new.due_date),
            decreases new.parent_ids.len() - i,
        {
            let p = new.parent_ids[i];
            let ghost sub = new.parent_ids@.subrange(0, i + 1);
            assert(sub.drop_last() == new.parent_ids@.subrange(0, i as int));
            assert(sub.last() == p);
            if self.store.get_task(p).is_none() {
                proof {
                    lemma_first_missing_prefix(self@, new.parent_ids@, i as int + 1);
                    assert(first_missing(self@, sub) == Some(p));
                }
                return Err(CoreError::NotFound(p));
            }
            i = i + 1;
        }
        assert(new.parent_ids@.subrange(0, new.parent_ids.len() as int) == new.parent_ids@);
        match new.assignee_id {
            Some(a) => {
                if self.store.get_user(a).is_none() {
                    return Err(CoreError::UnknownUser(a));
                }
            },
            None => {},
        }
        if self.store.task_id_in_use(id) {
            return Err(CoreError::Store(StoreError::Backend(owned("task id already in use"))));
        }
        let ghost v0 = self@;
        let parents = Parents::from_ids(copy_ids(&new.parent_ids));
        let task = Task {
            id,
            title: new.title,
            description: new.description,
            parent_ids: Vec::new(),
            type_key,
            status: TaskStatus::Incomplete,
            progress: Progress { complete: 0, total: 1 },
            start_date: new.start_date,
            due_date: new.due_date,
            assignee_id: new.assignee_id,
            created_at: now,
            updated_at: now,
            deleted_at: None,
            completed_at: None,
        };
        assert(task@ == new_row(new, id, now));
        self.store.put_task(&task);
        proof {
            assert(task_index(v0.tasks, id) < 0);
            assert(edges_avoid(v0.edges, id));
            assert(wanted_parents(parents) == wanted_ids(new.parent_ids@));
            lemma_prune_untouched(v0.edges, id, wanted_ids(new.parent_ids@));
            lemma_first_missing_none(v0, new.parent_ids@);
            assert forall|k: int| 0 <= k < parents_ids(parents).len() implies #[trigger] parents_ids(
                parents,
            )[k] != id by {
                assert(live_task(v0, new.parent_ids@[k]) is Some);
            }
            lemma_fresh_no_cycle(v0.edges, id, parents_ids(parents));
            if acyclic(v0.edges) {
                lemma_replace_keeps_acyclic(v0.edges, id, parents, Placement::End);
            }
        }
        self.store.replace_parent_edges(id, &parents, Placement::End);
        assert(self@ == created(v0, new, id, now));
        assert(task_index(self@.tasks, id) == v0.tasks.len());
        match self.store.get_task(id) {
            Some(t) => {
                let mut out = self.show(t);
                out.parent_ids = new.parent_ids;
                Ok(out)
            },
            None => {
                proof {
                    assert(false);
                }
                Err(CoreError::NotFound(id))
            },
        }
    }

    /// Creates a task from `new` with a fresh random id, created and updated
    /// now; see `create_task_with_id` for the checks. The id comes from a
    /// random source: should it already be in use, a store error comes back
    /// and nothing is written.
    pub fn create_task(&mut self, new: NewTask) -> (r: Result<Task, CoreError>)
        ensures
            !create_ok(old(self)@, new) ==> (r matches Err(e) && create_error(old(self)@, new, e))
                && final(self)@ == old(self)@,
            create_ok(old(self)@, new) ==> (r matches Ok(t) && (!id_in_use(old(self)@, t.id) && final(self)@ == created(old(self)@, new, t.id, t.created_at) && (live_task(final(self)@, t.id) matches Some(
                x,
            ) && t@ == (TaskView { parent_ids: new.parent_ids@, ..shown(final(self)@, x) })))) || (r matches Err(CoreError::Store(_)) && final(self)@ == old(self)@),
            r matches Err(CoreError::Store(_)) ==> exists|x: TaskId| #[trigger] id_in_use(old(self)@, x),
            acyclic(old(self)@.edges) ==> acyclic(final(self)@.edges),
    {
        let id = TaskId::new();
        let now = Timestamp::now();
        self.create_task_with_id(new, id, now)
    }

    /// Applies `patch` to the live task `id` and bumps its `updated_at`.
    /// Fails with `NotFound` for a missing or deleted task, else with the
    /// first check the patched task fails (blank title, unknown type, due
    /// date before start date, unknown newly assigned user); a failed call
    /// writes nothing. Returns the one task changed.
    pub fn update_task(&mut self, id: TaskId, patch: TaskPatch) -> (r: Result<Vec<Task>, CoreError>)
        ensures
            live_task(old(self)@, id) is None ==> r == Err::<Vec<Task>, CoreError>(
                CoreError::NotFound(id),
            ) && final(self)@ == old(self)@,
            live_task(old(self)@, id) matches Some(t) ==> (!update_ok(old(self)@, t, patch) ==> (
            r matches Err(e) && update_error(old(self)@, t, patch, e)) && final(self)@ == old(self)@) && (update_ok(old(self)@, t, patch) ==> (r matches Ok(v) && (v@.len() == 1
                && final(self)@ == written(old(self)@, patched(t, patch, v@[0].updated_at)) && (
            live_task(final(self)@, id) matches Some(x) && v@[0]@ == shown(final(self)@, x))))),
            final(self)@.edges == old(self)@.edges,
    {
        let t0 = match self.store.get_task(id) {
            Some(t) => t,
            None => {
                return Err(CoreError::NotFound(id));
            },
        };
        let ghost v0 = self@;
        let ghost tv = t0@;
        proof {
            lemma_found_id(v0, id);
        }
        let now = Timestamp::now();
        let mut task = t0;
        match patch.title {
            Field::Assign(s) => {
                task.title = s;
            },
            _ => {},
        }
        if is_blank_text(task.title.as_str()) {
            return Err(CoreError::EmptyTitle);
        }
        match patch.type_key {
            Field::Assign(s) => {
                task.type_key = s;
            },
            _ => {},
        }
        if !self.store.has_task_type(task.type_key.as_str()) {
            return Err(CoreError::UnknownTaskType(task.type_key));
        }
        match patch.description {
            Field::Keep => {},
            Field::Assign(s) => {
                task.description = Some(s);
            },
            Field::Clear => {
                task.description = None;
            },
        }
        match patch.start_date {
            Field::Keep => {},
            Field::Assign(d) => {
                task.start_date = Some(d);
            },
            Field::Clear => {
                task.start_date = None;
            },
        }
        match patch.due_date {
            Field::Keep => {},
            Field::Assign(d) => {
                task.due_date = Some(d);
            },
            Field::Clear => {
                task.due_date = None;
            },
        }
        match (task.start_date, task.due_date) {
            (Some(start), Some(due)) => {
                if due.days < start.days {
                    return Err(CoreError::InvalidDateRange { start, due });
                }
            },
            _ => {},
        }
        match patch.assignee_id {
            Field::Keep => {},
            Field::Assign(a) => {
                if self.store.get_user(a).is_none() {
                    return Err(CoreError::UnknownUser(a));
                }
                task.assignee_id = Some(a);
            },
            Field::Clear => {
                task.assignee_id = None;
            },
        }
        task.updated_at = now;
        assert(task@ == patched(tv, patch, now));
        self.store.put_task(&task);
        proof {
            lemma_written_live(v0, task@);
            assert(self@ == written(v0, task@));
        }
        let mut out: Vec<Task> = Vec::new();
        match self.store.get_task(id) {
            Some(t) => {
                out.push(self.show(t));
            },
            None => {
                proof {
                    assert(false);
                }
            },
        }
        Ok(out)
    }

    /// Clears the tombstone of task `id`, deleted or not, and bumps its
    /// `updated_at`. Fails with `NotFound` only when no row has that id.
    pub fn restore_task(&mut self, id: TaskId) -> (r: Result<Task, CoreError>)
        ensures
            any_task(old(self)@, id) is None ==> r == Err::<Task, CoreError>(CoreError::NotFound(id))
                && final(self)@ == old(self)@,
            any_task(old(self)@, id) matches Some(t) ==> (r matches Ok(x) && (final(self)@ == written(
                old(self)@,
                TaskView { deleted_at: None, updated_at: x.updated_at, ..t },
            ) && (live_task(final(self)@, id) matches Some(y) && x@ == shown(final(self)@, y)))),
            final(self)@.edges == old(self)@.edges,
    {
        let mut task = match self.store.get_task_including_deleted(id) {
            Some(t) => t,
            None => {
                return Err(CoreError::NotFound(id));
            },
        };
        let ghost v0 = self@;
        proof {
            lemma_found_id(v0, id);
        }
        task.deleted_at = None;
        task.updated_at = Timestamp::now();
        self.store.put_task(&task);
        proof {
            lemma_written_live(v0, task@);
            assert(self@ == written(v0, task@));
        }
        match self.store.get_task(id) {
            Some(t) => Ok(self.show(t)),
            None => {
                proof {
                    assert(false);
                }
                Err(CoreError::NotFound(id))
            },
        }
    }

    /// Marks the live task `id` incomplete again (no completion time) and
    /// bumps its `updated_at`; a task that is already incomplete is
    /// accepted too. Fails with `NotFound` for a missing or deleted task.
    pub fn reopen_task(&mut self, id: TaskId) -> (r: Result<Task, CoreError>)
        ensures
            live_task(old(self)@, id) is None ==> r == Err::<Task, CoreError>(CoreError::NotFound(id))
                && final(self)@ == old(self)@,
            live_task(old(self)@, id) matches Some(t) ==> (r matches Ok(x) && (final(self)@
                == written(
                old(self)@,
                TaskView {
                    status: TaskStatus::Incomplete,
                    completed_at: None,
                    updated_at: x.updated_at,
                    ..t
                },
            ) && (live_task(final(self)@, id) matches Some(y) && x@ == shown(final(self)@, y)))),
            final(self)@.edges == old(self)@.edges,
    {
        let mut task = match self.store.get_task(id) {
            Some(t) => t,
            None => {
                return Err(CoreError::NotFound(id));
            },
        };
        let ghost v0 = self@;
        proof {
            lemma_found_id(v0, id);
        }
        task.status = TaskStatus::Incomplete;
        task.completed_at = None;
        task.updated_at = Timestamp::now();
        self.store.put_task(&task);
        proof {
            lemma_written_live(v0, task@);
            assert(self@ == written(v0, task@));
        }
        match self.store.get_task(id) {
            Some(t) => Ok(self.show(t)),
            None => {
                proof {
                    assert(false);
                }
                Err(CoreError::NotFound(id))
            },
        }
    }

    /// Replaces the whole parent set of the live task `id` with
    /// `new_parents` (top level when empty) and bumps its `updated_at`.
    /// Fails, writing nothing, with `NotFound` for a missing task or the
    /// first missing parent, else with `CircularHierarchy` naming the first
    /// new parent that has `id` among its ancestors-or-self. Newly added
    /// parents take the task last among their children; kept parents keep
    /// its place.
    pub fn set_parents(&mut self, id: TaskId, new_parents: Vec<TaskId>) -> (r: Result<
        Task,
        CoreError,
    >)
        ensures
            live_task(old(self)@, id) is None ==> r == Err::<Task, CoreError>(CoreError::NotFound(id))
                && final(self)@ == old(self)@,
            live_task(old(self)@, id) matches Some(t) ==> (first_missing(old(self)@, new_parents@) matches Some(p) ==> r
                == Err::<Task, CoreError>(CoreError::NotFound(p)) && final(self)@ == old(self)@)
                && (first_missing(old(self)@, new_parents@) is None ==> (first_cycle(
                old(self)@.edges,
                id,
                new_parents@,
            ) matches Some(p) ==> r == Err::<Task, CoreError>(
                CoreError::CircularHierarchy { task: id, attempted_parent: p },
            ) && final(self)@ == old(self)@) && (first_cycle(old(self)@.edges, id, new_parents@) is None ==> (
            r matches Ok(x) && (final(self)@ == written(
                StoreView {
                    edges: reparented_edges(old(self)@.edges, id, new_parents@),
                    ..old(self)@
                },
                TaskView { updated_at: x.updated_at, ..t },
            ) && (live_task(final(self)@, id) matches Some(y) && x@ == shown(final(self)@, y)))))),
            acyclic(old(self)@.edges) ==> acyclic(final(self)@.edges),
    {
        let task = match self.store.get_task(id) {
            Some(t) => t,
            None => {
                return Err(CoreError::NotFound(id));
            },
        };
        let ghost v0 = self@;
        proof {
            lemma_found_id(v0, id);
        }
        let mut i: usize = 0;
        while i < new_parents.len()
            invariant
                i <= new_parents.len(),
                first_missing(self@, new_parents@.subrange(0, i as int)) is None,
                self@ == v0,
                live_task(v0, id) is Some,
            decreases new_parents.len() - i,
        {
            let p = new_parents[i];
            let ghost sub = new_parents@.subrange(0, i + 1);
            assert(sub.drop_last() == new_parents@.subrange(0, i as int));
            assert(sub.last() == p);
            if self.store.get_task(p).is_none() {
                proof {
                    lemma_first_missing_prefix(self@, new_parents@, i as int + 1);
                    assert(first_missing(self@, sub) == Some(p));
                }
                return Err(CoreError::NotFound(p));
            }
            i = i + 1;
        }
        assert(new_parents@.subrange(0, new_parents.len() as int) == new_parents@);
        let parents = Parents::from_ids(copy_ids(&new_parents));
        assert(parents_ids(parents) == new_parents@);
        assert(wanted_parents(parents) == wanted_ids(new_parents@));
        match replace_parents(&mut self.store, id, &parents, Placement::End) {
            Ok(()) => {},
            Err(e) => {
                return Err(e);
            },
        }
        proof {
            if acyclic(v0.edges) {
                lemma_replace_keeps_acyclic(v0.edges, id, parents, Placement::End);
            }
        }
        let ghost v1 = self@;
        let mut task = task;
        task.updated_at = Timestamp::now();
        self.store.put_task(&task);
        proof {
            lemma_written_live(v1, task@);
            assert(self@ == written(v1, task@));
        }
        match self.store.get_task(id) {
            Some(t) => Ok(self.show(t)),
            None => {
                proof {
                    assert(false);
                }
                Err(CoreError::NotFound(id))
            },
        }
    }

    /// Completes, at `now`, every open task in the live subtree of `id`: a
    /// breadth-first walk over live tasks that visits each task once.
    /// Returns the ids it completed.
    fn complete_subtree(&mut self, id: TaskId, now: Timestamp) -> (done: Vec<TaskId>)
        requires
            live_task(old(self)@, id) is Some,
        ensures
            done@.no_duplicates(),
            done@.to_set() == to_complete(old(self)@, id, true),
            final(self)@ == completed_state(old(self)@, done@.to_set(), now),
    {
        let ghost v0 = self@;
        let ghost es = v0.edges;
        let ghost univ = es.map_values(|e: Edge| e.child).push(id);
        let mut queue: Vec<TaskId> = Vec::new();
        queue.push(id);
        let ghost mut origin: Seq<TaskId> = seq![id];
        let mut done: Vec<TaskId> = Vec::new();
        let mut k: usize = 0;
        proof {
            lemma_subtree_refl(v0, id);
            assert(univ[univ.len() - 1] == id);
            assert(done@.to_set() =~= Set::<TaskId>::empty());
            assert(complete_rows(v0.tasks, Set::<TaskId>::empty(), now) =~= v0.tasks);
            assert(queue@.subrange(0, 0) =~= Seq::<TaskId>::empty());
        }
        while k < queue.len()
            invariant
                k <= queue.len(),
                queue@.len() >= 1,
                queue@[0] == id,
                queue@.no_duplicates(),
                origin.len() == queue@.len(),
                es == v0.edges,
                univ == es.map_values(|e: Edge| e.child).push(id),
                live_task(v0, id) is Some,
                forall|j: int| 0 <= j < queue@.len() ==> univ.contains(#[trigger] queue@[j]),
                forall|j: int|
                    0 < j < queue@.len() ==> in_subtree(v0, id, #[trigger] origin[j]) && edge_in(
                        es,
                        Some(origin[j]),
                        queue@[j],
                    ),
                forall|j: int|
                    0 <= j < k && live_task(v0, #[trigger] queue@[j]) is Some ==> in_subtree(
                        v0,
                        id,
                        queue@[j],
                    ),
                forall|j: int, c: TaskId|
                    0 <= j < k && live_task(v0, queue@[j]) is Some && #[trigger] edge_in(
                        es,
                        Some(queue@[j]),
                        c,
                    ) ==> queue@.contains(c),
                done@ == open_among(v0, queue@.subrange(0, k as int)),
                done@.no_duplicates(),
                self@ == completed_state(v0, done@.to_set(), now),
            decreases univ.len() - k,
        {
            proof {
                assert forall|y: TaskId| queue@.contains(y) implies univ.contains(y) by {
                    let j = choose|j: int| 0 <= j < queue@.len() && queue@[j] == y;
                    assert(univ.contains(queue@[j]));
                }
                lemma_bounded_visits(queue@, univ);
            }
            let x = queue[k];
            let ghost prefix = queue@.subrange(0, k as int);
            let ghost dset = done@.to_set();
            proof {
                assert(!prefix.contains(x)) by {
                    if prefix.contains(x) {
                        let j = choose|j: int| 0 <= j < prefix.len() && prefix[j] == x;
                        assert(queue@[j] == queue@[k as int]);
                    }
                }
                lemma_open_among_contains(v0, prefix, x);
                assert(!done@.contains(x));
                assert(!dset.contains(x));
                lemma_complete_rows_lookup(v0, dset, now, x);
                assert(queue@.subrange(0, k + 1).drop_last() == prefix);
                assert(queue@.subrange(0, k + 1).last() == x);
            }
            match self.store.get_task(x) {
                Some(t) => {
                    proof {
                        if k == 0 {
                            assert(x == id);
                            lemma_subtree_refl(v0, id);
                        } else {
                            assert(in_subtree(v0, id, origin[k as int]));
                            lemma_subtree_step(v0, id, origin[k as int], x);
                        }
                    }
                    if t.status == TaskStatus::Incomplete {
                        let mut t = t;
                        t.status = TaskStatus::Complete;
                        t.completed_at = Some(now);
                        t.updated_at = now;
                        self.store.put_task(&t);
                        proof {
                            lemma_complete_rows_step(v0, dset, now, x);
                        }
                        let ghost before_done = done@;
                        done.push(x);
                        proof {
                            before_done.lemma_push_to_set_commute(x);
                            assert(done@.to_set() =~= dset.insert(x));
                            assert forall|i: int, j: int|
                                0 <= i < done@.len() && 0 <= j < done@.len() && i != j implies done@[i]
                                != done@[j] by {
                                if i == before_done.len() as int {
                                    assert(before_done.contains(before_done[j]));
                                } else if j == before_done.len() as int {
                                    assert(before_done.contains(before_done[i]));
                                }
                            }
                        }
                    }
                    let kids = self.store.list_child_edges(Some(x));
                    let ghost q0 = queue@;
                    let ghost origin0 = origin;
                    let mut m: usize = 0;
                    while m < kids.len()
                        invariant
                            m <= kids.len(),
                            kids@ == children_in(es, Some(x)),
                            queue@.len() >= q0.len(),
                            queue@.subrange(0, q0.len() as int) == q0,
                            origin.len() == queue@.len(),
                            origin.subrange(0, q0.len() as int) == origin0,
                            queue@.no_duplicates(),
                            forall|j: int| q0.len() <= j < queue@.len() ==> #[trigger] origin[j] == x,
                            forall|j: int|
                                q0.len() <= j < queue@.len() ==> edge_in(
                                    es,
                                    Some(x),
                                    #[trigger] queue@[j],
                                ),
                            in_subtree(v0, id, x),
                            forall|i: int| 0 <= i < m ==> queue@.contains(#[trigger] kids@[i]),
                        decreases kids.len() - m,
                    {
                        let c = kids[m];
                        proof {
                            lemma_children_in_contains(es, Some(x), c);
                            assert(kids@.contains(c)) by {
                                assert(kids@[m as int] == c);
                            }
                        }
                        let ghost before_q = queue@;
                        let ghost before_origin = origin;
                        if !contains_id(&queue, c) {
                            queue.push(c);
                            proof {
                                origin = origin.push(x);
                                assert forall|j: int| q0.len() <= j < queue@.len() implies origin[j]
                                    == x && edge_in(es, Some(x), #[trigger] queue@[j]) by {
                                    if j < before_q.len() {
                                        assert(queue@[j] == before_q[j]);
                                        assert(origin[j] == before_origin[j]);
                                    } else {
                                        assert(queue@[j] == c);
                                    }
                                }
                                assert(queue@.subrange(0, q0.len() as int) =~= before_q.subrange(
                                    0,
                                    q0.len() as int,
                                ));
                                assert(origin.subrange(0, q0.len() as int) =~= origin0);
                                assert forall|i: int, j: int|
                                    0 <= i < queue@.len() && 0 <= j < queue@.len() && i != j implies queue@[i]
                                    != queue@[j] by {
                                    if i == before_q.len() as int {
                                        assert(before_q.contains(before_q[j]));
                                    } else if j == before_q.len() as int {
                                        assert(before_q.contains(before_q[i]));
                                    }
                                }
                                assert(queue@[before_q.len() as int] == c);
                            }
                        }
                        proof {
                            assert forall|i: int| 0 <= i < m + 1 implies queue@.contains(
                                #[trigger] kids@[i],
                            ) by {
                                if i < m {
                                    let j = choose|j: int|
                                        0 <= j < before_q.len() && before_q[j] == kids@[i];
                                    assert(queue@[j] == kids@[i]);
                                } else {
                                    if before_q.contains(c) {
                                        let j = choose|j: int|
                                            0 <= j < before_q.len() && before_q[j] == c;
                                        assert(queue@[j] == c);
                                    } else {
                                        assert(queue@[before_q.len() as int] == c);
                                    }
                                }
                            }
                        }
                        m = m + 1;
                    }
                    proof {
                        assert forall|j: int| 0 <= j < queue@.len() implies univ.contains(
                            #[trigger] queue@[j],
                        ) by {
                            if j < q0.len() {
                                assert(queue@.subrange(0, q0.len() as int)[j] == queue@[j]);
                                assert(queue@[j] == q0[j]);
                                assert(univ.contains(q0[j]));
                            } else {
                                assert(origin[j] == x);
                                lemma_child_in_universe(es, id, Some(x), queue@[j]);
                            }
                        }
                        assert forall|j: int| 0 < j < queue@.len() implies in_subtree(
                            v0,
                            id,
                            #[trigger] origin[j],
                        ) && edge_in(es, Some(origin[j]), queue@[j]) by {
                            if j < q0.len() {
                                assert(queue@.subrange(0, q0.len() as int)[j] == queue@[j]);
                                assert(origin.subrange(0, q0.len() as int)[j] == origin[j]);
                                assert(queue@[j] == q0[j]);
                                assert(origin[j] == origin0[j]);
                                assert(in_subtree(v0, id, origin0[j]));
                            } else {
                                assert(origin[j] == x);
                                assert(edge_in(es, Some(x), queue@[j]));
                            }
                        }
                        assert forall|j: int, c: TaskId|
                            0 <= j < k + 1 && live_task(v0, queue@[j]) is Some && #[trigger] edge_in(
                                es,
                                Some(queue@[j]),
                                c,
                            ) implies queue@.contains(c) by {
                            assert(queue@.subrange(0, q0.len() as int)[j] == queue@[j]);
                            assert(queue@[j] == q0[j]);
                            if j < k {
                                assert(q0.contains(c));
                                let i = choose|i: int| 0 <= i < q0.len() && q0[i] == c;
                                assert(queue@[i] == c);
                            } else {
                                lemma_children_in_contains(es, Some(x), c);
                                let i = choose|i: int| 0 <= i < kids@.len() && kids@[i] == c;
                                assert(queue@.contains(kids@[i]));
                            }
                        }
                        assert forall|j: int|
                            0 <= j < k + 1 && live_task(v0, #[trigger] queue@[j]) is Some implies in_subtree(
                            v0,
                            id,
                            queue@[j],
                        ) by {
                            assert(queue@.subrange(0, q0.len() as int)[j] == queue@[j]);
                            assert(queue@[j] == q0[j]);
                        }
                        assert(queue@.subrange(0, k + 1) == q0.subrange(0, k + 1));
                    }
                },
                None => {
                    proof {
                        assert(!is_open(v0, x));
                    }
                },
            }
            k = k + 1;
        }
        proof {
            let q = queue@;
            assert(q.subrange(0, q.len() as int) == q);
            assert forall|x: TaskId| done@.to_set().contains(x) <==> to_complete(v0, id, true).contains(
                x,
            ) by {
                lemma_open_among_contains(v0, q, x);
                if in_subtree(v0, id, x) && is_open(v0, x) {
                    assert(q.contains(id)) by {
                        assert(q[0] == id);
                    }
                    lemma_queue_covers(v0, id, q, x);
                }
                if q.contains(x) && is_open(v0, x) {
                    let j = choose|j: int| 0 <= j < q.len() && q[j] == x;
                    assert(live_task(v0, q[j]) is Some);
                }
            }
            assert(done@.to_set() =~= to_complete(v0, id, true));
        }
        done
    }

    /// The open tasks anywhere under the live task `id`, each once: the
    /// walk a cascade makes, run on a scratch duplicate of the store so
    /// that nothing is written, without `id` itself.
    fn open_descendant_ids(&self, id: TaskId) -> (r: Vec<TaskId>)
        requires
            live_task(self@, id) is Some,
        ensures
            r@.no_duplicates(),
            r@.to_set() == open_descendants(self@, id),
    {
        let mut scratch = Core { store: self.store.duplicate() };
        let all = scratch.complete_subtree(id, Timestamp { micros: 0 });
        let mut r: Vec<TaskId> = Vec::new();
        let mut i: usize = 0;
        while i < all.len()
            invariant
                i <= all.len(),
                all@.no_duplicates(),
                r@.no_duplicates(),
                forall|x: TaskId| r@.contains(x) <==> (all@.subrange(0, i as int).contains(x) && x != id),
            decreases all.len() - i,
        {
            let x = all[i];
            let ghost old_r = r@;
            proof {
                assert forall|y: TaskId| all@.subrange(0, i + 1).contains(y) <==> (all@.subrange(
                    0,
                    i as int,
                ).contains(y) || y == x) by {
                    if all@.subrange(0, i + 1).contains(y) {
                        let j = choose|j: int| 0 <= j < i + 1 && #[trigger] all@.subrange(0, i + 1)[j] == y;
                        if j < i {
                            assert(all@.subrange(0, i as int)[j] == y);
                        }
                    }
                    if all@.subrange(0, i as int).contains(y) {
                        let j = choose|j: int| 0 <= j < i && #[trigger] all@.subrange(0, i as int)[j] == y;
                        assert(all@.subrange(0, i + 1)[j] == y);
                    }
                    if y == x {
                        assert(all@.subrange(0, i + 1)[i as int] == y);
                    }
                }
                if all@.subrange(0, i as int).contains(x) {
                    let j = choose|j: int| 0 <= j < i && #[trigger] all@.subrange(0, i as int)[j] == x;
                    assert(all@[j] == all@[i as int]);
                }
            }
            if x != id {
                let ghost before = r@;
                r.push(x);
                proof {
                    assert forall|y: TaskId| r@.contains(y) <==> (before.contains(y) || y == x) by {
                        if r@.contains(y) {
                            let j = choose|j: int| 0 <= j < r@.len() && #[trigger] r@[j] == y;
                            if j < before.len() {
                                assert(before[j] == y);
                            }
                        }
                        if before.contains(y) {
                            let j = choose|j: int| 0 <= j < before.len() && #[trigger] before[j] == y;
                            assert(r@[j] == y);
                        }
                        if y == x {
                            assert(r@[before.len() as int] == y);
                        }
                    }
                    assert forall|a: int, b: int| 0 <= a < b < r@.len() implies r@[a] != r@[b] by {
                        if b == before.len() {
                            assert(before.contains(before[a]));
                        } else {
                            assert(before[a] == r@[a] && before[b] == r@[b]);
                        }
                    }
                }
            }
            proof {
                let ghost post = all@.subrange(0, i + 1);
                let ghost pre = all@.subrange(0, i as int);
                assert forall|y: TaskId| r@.contains(y) <==> (post.contains(y) && y != id) by {
                    assert(post.contains(y) <==> (pre.contains(y) || y == x));
                    assert(old_r.contains(y) <==> (pre.contains(y) && y != id));
                    if x != id {
                        assert(r@.contains(y) <==> (old_r.contains(y) || y == x));
                    } else {
                        assert(r@ == old_r);
                    }
                }
            }
            i = i + 1;
        }
        proof {
            assert(all@.subrange(0, all.len() as int) =~= all@);
            assert(r@.to_set() =~= open_descendants(self@, id));
        }
        r
    }

    /// Completes the live task `id` at the current time. Without `cascade`
    /// it fails with `IncompleteChildren`, naming every open task anywhere
    /// under it (each once), when there is any, and then writes nothing;
    /// else it completes `id` (if open). With `cascade` it
    /// completes every open task of the live subtree of `id`. Fails with
    /// `NotFound` for a missing or deleted task. Returns each task it
    /// completed, once; a task already complete is neither rewritten nor
    /// returned.
    pub fn complete_task(&mut self, id: TaskId, cascade: bool) -> (r: Result<Vec<Task>, CoreError>)
        ensures
            live_task(old(self)@, id) is None ==> r == Err::<Vec<Task>, CoreError>(
                CoreError::NotFound(id),
            ) && final(self)@ == old(self)@,
            live_task(old(self)@, id) is Some && !cascade && open_descendants(old(self)@, id)
                != Set::<TaskId>::empty() ==> (r matches Err(CoreError::IncompleteChildren { task, incomplete })
                && (task == id && incomplete@.no_duplicates() && incomplete@.to_set() == open_descendants(
                old(self)@,
                id,
            ))) && final(self)@ == old(self)@,
            live_task(old(self)@, id) is Some && (cascade || open_descendants(old(self)@, id)
                == Set::<TaskId>::empty()) ==> (r matches Ok(v) && (ids_of(views(v@)).no_duplicates() && ids_of(
                views(v@),
            ).to_set() == to_complete(old(self)@, id, cascade) && views(v@) == shown_all(
                final(self)@,
                live_rows(final(self)@, ids_of(views(v@))),
            ) && exists|now: Timestamp|
                #[trigger] completed_state(old(self)@, to_complete(old(self)@, id, cascade), now)
                    == final(self)@)),
            final(self)@.edges == old(self)@.edges,
    {
        let task = match self.store.get_task(id) {
            Some(t) => t,
            None => {
                return Err(CoreError::NotFound(id));
            },
        };
        let ghost v0 = self@;
        let incomplete = self.open_descendant_ids(id);
        if incomplete.len() > 0 && !cascade {
            proof {
                assert(incomplete@.to_set().contains(incomplete@[0]));
            }
            return Err(CoreError::IncompleteChildren { task: id, incomplete });
        }
        proof {
            if incomplete.len() == 0 {
                assert(incomplete@ =~= Seq::<TaskId>::empty());
                assert(incomplete@.to_set() =~= Set::<TaskId>::empty());
            }
        }
        let now = Timestamp::now();
        let done = if cascade {
            self.complete_subtree(id, now)
        } else {
            let mut done: Vec<TaskId> = Vec::new();
            proof {
                assert(complete_rows(v0.tasks, Set::<TaskId>::empty(), now) =~= v0.tasks);
                lemma_complete_rows_lookup(v0, Set::<TaskId>::empty(), now, id);
            }
            if task.status == TaskStatus::Incomplete {
                let mut t = task;
                t.status = TaskStatus::Complete;
                t.completed_at = Some(now);
                t.updated_at = now;
                self.store.put_task(&t);
                proof {
                    lemma_complete_rows_step(v0, Set::<TaskId>::empty(), now, id);
                    assert(Set::<TaskId>::empty().insert(id) =~= set![id]);
                }
                done.push(id);
                proof {
                    Seq::<TaskId>::empty().lemma_push_to_set_commute(id);
                    assert(done@ == Seq::<TaskId>::empty().push(id));
                    assert(done@.to_set() =~= set![id]);
                }
            } else {
                proof {
                    assert(done@.to_set() =~= Set::<TaskId>::empty());
                }
            }
            proof {
                assert(done@.to_set() =~= to_complete(v0, id, false));
            }
            done
        };
        proof {
            assert(completed_state(v0, to_complete(v0, id, cascade), now) == self@);
            assert forall|k: int| 0 <= k < done@.len() implies live_task(self@, #[trigger] done@[k])
                is Some by {
                assert(done@.to_set().contains(done@[k]));
                lemma_complete_rows_lookup(v0, done@.to_set(), now, done@[k]);
            }
            lemma_live_rows_ids(self@, done@);
        }
        let tasks = self.live_tasks(&done);
        let out = self.show_all(&tasks);
        proof {
            assert(ids_of(views(out@)) =~= ids_of(views(tasks@)));
        }
        Ok(out)
    }

    /// The rows found for `ids` (deleted or not), in order.
    fn any_tasks(&self, ids: &Vec<TaskId>) -> (r: Vec<Task>)
        ensures
            views(r@) == any_rows(self@, ids@),
    {
        let mut r: Vec<Task> = Vec::new();
        let mut i: usize = 0;
        while i < ids.len()
            invariant
                i <= ids.len(),
                views(r@) == any_rows(self@, ids@.subrange(0, i as int)),
            decreases ids.len() - i,
        {
            let ghost sub = ids@.subrange(0, i + 1);
            assert(sub.drop_last() == ids@.subrange(0, i as int));
            assert(sub.last() == ids@[i as int]);
            match self.store.get_task_including_deleted(ids[i]) {
                Some(t) => {
                    let ghost before = r@;
                    r.push(t);
                    proof {
                        lemma_map_push(before, t, |t: Task| t@);
                    }
                },
                None => {},
            }
            i = i + 1;
        }
        assert(ids@.subrange(0, ids.len() as int) == ids@);
        r
    }

    /// What a subtree delete of the live task `id` soft-deletes: `id`, then
    /// every task with a row all of whose parents are taken, walked with a
    /// work stack so that a deep chain needs no recursion.
    fn doomed_ids(&self, id: TaskId) -> (r: Vec<TaskId>)
        requires
            live_task(self@, id) is Some,
        ensures
            r@.no_duplicates(),
            r@.to_set() == doomed(self@, id),
            forall|y: TaskId| r@.contains(y) ==> any_task(self@, y) is Some,
    {
        let ghost v = self@;
        let ghost es = v.edges;
        let ghost univ = es.map_values(|e: Edge| e.child).push(id);
        let mut taken: Vec<TaskId> = Vec::new();
        let mut pending: Vec<TaskId> = Vec::new();
        pending.push(id);
        proof {
            assert(univ[univ.len() - 1] == id);
            assert(pending@[0] == id);
            lemma_found_id(v, id);
        }
        while pending.len() > 0
            invariant
                v == self@,
                es == v.edges,
                univ == es.map_values(|e: Edge| e.child).push(id),
                any_task(v, id) is Some,
                taken@.no_duplicates(),
                forall|y: TaskId| taken@.contains(y) ==> univ.contains(y),
                forall|y: TaskId| pending@.contains(y) ==> univ.contains(y),
                forall|y: TaskId| taken@.contains(y) ==> any_task(v, y) is Some,
                forall|t: Set<TaskId>, y: TaskId|
                    #![trigger doom_closed(v, id, t), taken@.contains(y)]
                    doom_closed(v, id, t) && taken@.contains(y) ==> t.contains(y),
                forall|y: TaskId|
                    pending@.contains(y) ==> y == id || stripped(es, taken@.to_set(), y),
                forall|p: TaskId, c: TaskId|
                    taken@.contains(p) && #[trigger] edge_in(es, Some(p), c) && stripped(
                        es,
                        taken@.to_set(),
                        c,
                    ) && any_task(v, c) is Some ==> taken@.contains(c) || pending@.contains(c),
                taken@.contains(id) || pending@.contains(id),
            decreases univ.len() - taken@.len(), pending@.len(),
        {
            proof {
                lemma_bounded_visits(taken@, univ);
            }
            let ghost before_pending = pending@;
            let x = pending.pop().unwrap();
            proof {
                assert(before_pending == pending@.push(x));
                assert(before_pending.contains(x)) by {
                    assert(before_pending[before_pending.len() - 1] == x);
                }
                assert forall|y: TaskId| pending@.contains(y) implies before_pending.contains(y) by {
                    let i = choose|i: int| 0 <= i < pending@.len() && pending@[i] == y;
                    assert(before_pending[i] == y);
                }
                assert forall|y: TaskId| before_pending.contains(y) && y != x implies pending@.contains(
                    y,
                ) by {
                    let i = choose|i: int| 0 <= i < before_pending.len() && before_pending[i] == y;
                    if i < pending@.len() {
                        assert(pending@[i] == y);
                    }
                }
            }
            proof {
                assert forall|y: TaskId| pending@.contains(y) implies y == id || stripped(
                    es,
                    taken@.to_set(),
                    y,
                ) by {
                    assert(before_pending.contains(y));
                }
            }
            if contains_id(&taken, x) {
                continue;
            }
            let found = self.store.get_task_including_deleted(x);
            if found.is_none() {
                continue;
            }
            assert(any_task(v, x) is Some);
            let ghost before_taken = taken@;
            let ghost p0 = pending@;
            taken.push(x);
            proof {
                assert forall|y: TaskId| taken@.contains(y) <==> before_taken.contains(y) || y == x by {
                    if taken@.contains(y) && y != x {
                        let i = choose|i: int| 0 <= i < taken@.len() && taken@[i] == y;
                        assert(before_taken[i] == y);
                    }
                    if before_taken.contains(y) {
                        let i = choose|i: int| 0 <= i < before_taken.len() && before_taken[i] == y;
                        assert(taken@[i] == y);
                    }
                    assert(taken@[before_taken.len() as int] == x);
                }
                assert forall|i: int, j: int|
                    0 <= i < taken@.len() && 0 <= j < taken@.len() && i != j implies taken@[i]
                    != taken@[j] by {
                    if i == before_taken.len() as int {
                        assert(before_taken.contains(before_taken[j]));
                    } else if j == before_taken.len() as int {
                        assert(before_taken.contains(before_taken[i]));
                    }
                }
                assert(before_taken.to_set().subset_of(taken@.to_set()));
                assert forall|y: TaskId| taken@.contains(y) implies any_task(v, y) is Some && univ.contains(y) by {
                    if y != x {
                        assert(before_taken.contains(y));
                    }
                }
                lemma_bounded_visits(taken@, univ);
            }
            let kids = self.store.list_child_edges(Some(x));
            assert forall|y: TaskId| taken@.contains(y) implies any_task(v, y) is Some by {
                if y != x {
                    assert(before_taken.contains(y));
                } else {
                    assert(found is Some);
                }
            }
            let mut m: usize = 0;
            while m < kids.len()
                invariant
                    m <= kids.len(),
                    v == self@,
                    es == v.edges,
                    univ == es.map_values(|e: Edge| e.child).push(id),
                    kids@ == children_in(es, Some(x)),
                    taken@ == before_taken.push(x),
                    forall|y: TaskId| taken@.contains(y) ==> any_task(v, y) is Some,
                    pending@.len() >= p0.len(),
                    pending@.subrange(0, p0.len() as int) == p0,
                    forall|y: TaskId| pending@.contains(y) ==> univ.contains(y),
                    forall|y: TaskId|
                        pending@.contains(y) ==> y == id || stripped(es, taken@.to_set(), y),
                    forall|i: int|
                        0 <= i < m && stripped(es, taken@.to_set(), #[trigger] kids@[i])
                            && !taken@.contains(kids@[i]) ==> pending@.contains(kids@[i]),
                decreases kids.len() - m,
            {
                let c = kids[m];
                let ps = self.store.list_parent_edges(c);
                let all = all_taken(&ps, &taken);
                let ghost before_q = pending@;
                proof {
                    lemma_children_in_contains(es, Some(x), c);
                    assert(kids@.contains(c)) by {
                        assert(kids@[m as int] == c);
                    }
                    if all {
                        assert forall|p: TaskId| #[trigger] edge_in(es, Some(p), c) implies taken@.to_set().contains(
                            p,
                        ) by {
                            lemma_parents_in_contains(es, c, p);
                            let j = choose|j: int| 0 <= j < ps@.len() && ps@[j] == p;
                            assert(taken@.contains(ps@[j]));
                        }
                        assert(stripped(es, taken@.to_set(), c));
                    } else {
                        let j = choose|j: int| 0 <= j < ps@.len() && !taken@.contains(#[trigger] ps@[j]);
                        lemma_parents_in_contains(es, c, ps@[j]);
                        assert(ps@.contains(ps@[j]));
                        assert(!stripped(es, taken@.to_set(), c));
                    }
                }
                if all && !contains_id(&taken, c) {
                    pending.push(c);
                    proof {
                        lemma_child_in_universe(es, id, Some(x), c);
                        assert forall|y: TaskId| pending@.contains(y) implies before_q.contains(y) || y
                            == c by {
                            let i = choose|i: int| 0 <= i < pending@.len() && pending@[i] == y;
                            if i < before_q.len() {
                                assert(before_q[i] == y);
                            }
                        }
                        assert forall|y: TaskId| before_q.contains(y) implies pending@.contains(y) by {
                            let i = choose|i: int| 0 <= i < before_q.len() && before_q[i] == y;
                            assert(pending@[i] == y);
                        }
                        assert(pending@[before_q.len() as int] == c);
                        assert(pending@.subrange(0, p0.len() as int) =~= before_q.subrange(
                            0,
                            p0.len() as int,
                        ));
                        assert forall|y: TaskId| pending@.contains(y) implies y == id || stripped(
                            es,
                            taken@.to_set(),
                            y,
                        ) by {
                            if y != c {
                                assert(before_q.contains(y));
                            }
                        }
                    }
                }
                proof {
                    assert forall|i: int|
                        0 <= i < m + 1 && stripped(es, taken@.to_set(), #[trigger] kids@[i])
                            && !taken@.contains(kids@[i]) implies pending@.contains(kids@[i]) by {
                        if i < m {
                            assert(before_q.contains(kids@[i]));
                            let k = choose|k: int| 0 <= k < before_q.len() && before_q[k] == kids@[i];
                            assert(pending@[k] == kids@[i]);
                        } else {
                            assert(kids@[i] == c);
                        }
                    }
                }
                m = m + 1;
            }
            proof {
                let tn = taken@.to_set();
                let to = before_taken.to_set();
                assert forall|y: TaskId| p0.contains(y) implies pending@.contains(y) by {
                    let i = choose|i: int| 0 <= i < p0.len() && p0[i] == y;
                    assert(pending@.subrange(0, p0.len() as int)[i] == pending@[i]);
                    assert(pending@[i] == y);
                }
                assert forall|t: Set<TaskId>, y: TaskId|
                    #![trigger doom_closed(v, id, t), taken@.contains(y)]
                    doom_closed(v, id, t) && taken@.contains(y) implies t.contains(y) by {
                    if y == x {
                        if x != id {
                            assert(stripped(es, to, x));
                            assert forall|z: TaskId| to.contains(z) implies t.contains(z) by {
                                assert(before_taken.contains(z));
                            }
                            lemma_stripped_mono(es, to, t, x);
                        }
                    } else {
                        assert(before_taken.contains(y));
                    }
                }
                assert forall|y: TaskId| pending@.contains(y) implies y == id || stripped(es, tn, y) by {}
                assert forall|p: TaskId, c: TaskId|
                    taken@.contains(p) && #[trigger] edge_in(es, Some(p), c) && stripped(es, tn, c)
                        && any_task(v, c) is Some implies taken@.contains(c) || pending@.contains(c) by {
                    if edge_in(es, Some(x), c) {
                        lemma_children_in_contains(es, Some(x), c);
                        let i = choose|i: int| 0 <= i < kids@.len() && kids@[i] == c;
                        assert(stripped(es, tn, kids@[i]));
                    } else {
                        assert forall|q: TaskId| #[trigger] edge_in(es, Some(q), c) implies to.contains(q) by {
                            assert(tn.contains(q));
                        }
                        assert(stripped(es, to, c));
                        assert(before_taken.contains(p));
                        if c != x {
                            assert(before_taken.contains(c) || before_pending.contains(c));
                        }
                    }
                }
            }
        }
        proof {
            let t = taken@.to_set();
            assert(doom_closed(v, id, t)) by {
                assert forall|y: TaskId| any_task(v, y) is Some && #[trigger] stripped(v.edges, t, y) implies t.contains(
                    y,
                ) by {
                    let p = choose|p: TaskId| #[trigger] edge_in(es, Some(p), y);
                    assert(t.contains(p));
                }
            }
            assert forall|y: TaskId| t.contains(y) <==> doomed(v, id).contains(y) by {
                if doomed(v, id).contains(y) {
                    assert(doom_closed(v, id, t) ==> t.contains(y));
                }
                if t.contains(y) {
                    assert forall|s2: Set<TaskId>| #[trigger] doom_closed(v, id, s2) implies s2.contains(y) by {
                        assert(taken@.contains(y));
                    }
                }
            }
            assert(t =~= doomed(v, id));
        }
        taken
    }

    /// The live tasks outside `taken` that sit under one of `taken`, once
    /// each.
    fn spared_ids(&self, taken: &Vec<TaskId>) -> (r: Vec<TaskId>)
        ensures
            r@.no_duplicates(),
            forall|c: TaskId| r@.contains(c) <==> spared_by(self@, taken@, taken@.to_set(), c),
    {
        let ghost v = self@;
        let ghost tset = taken@.to_set();
        let mut r: Vec<TaskId> = Vec::new();
        let mut i: usize = 0;
        while i < taken.len()
            invariant
                i <= taken.len(),
                v == self@,
                tset == taken@.to_set(),
                r@.no_duplicates(),
                forall|c: TaskId|
                    r@.contains(c) <==> spared_by(v, taken@.subrange(0, i as int), tset, c),
            decreases taken.len() - i,
        {
            let p = taken[i];
            let kids = self.store.list_child_edges(Some(p));
            let mut m: usize = 0;
            while m < kids.len()
                invariant
                    m <= kids.len(),
                    i < taken.len(),
                    p == taken@[i as int],
                    v == self@,
                    tset == taken@.to_set(),
                    kids@ == children_in(v.edges, Some(p)),
                    r@.no_duplicates(),
                    forall|c: TaskId|
                        r@.contains(c) <==> spared_by(v, taken@.subrange(0, i as int), tset, c) || (
                        !tset.contains(c) && live_task(v, c) is Some && kids@.subrange(
                            0,
                            m as int,
                        ).contains(c)),
                decreases kids.len() - m,
            {
                let c = kids[m];
                let ghost before = r@;
                let ghost kb = kids@.subrange(0, m + 1);
                let keep = !contains_id(taken, c) && !contains_id(&r, c) && self.store.get_task(
                    c,
                ).is_some();
                if keep {
                    r.push(c);
                    proof {
                        lemma_no_dup_push_ids(before, c);
                    }
                }
                proof {
                    assert forall|y: TaskId| r@.contains(y) <==> before.contains(y) || (keep && y
                        == c) by {
                        if keep {
                            if r@.contains(y) && y != c {
                                let k = choose|k: int| 0 <= k < r@.len() && r@[k] == y;
                                assert(before[k] == y);
                            }
                            if before.contains(y) {
                                let k = choose|k: int| 0 <= k < before.len() && before[k] == y;
                                assert(r@[k] == y);
                            }
                            assert(r@[before.len() as int] == c);
                        }
                    }
                    let ka = kids@.subrange(0, m as int);
                    assert(kb == ka.push(c));
                    assert forall|y: TaskId| kb.contains(y) <==> ka.contains(y) || y == c by {
                        if kb.contains(y) && y != c {
                            let k = choose|k: int| 0 <= k < kb.len() && kb[k] == y;
                            assert(ka[k] == y);
                        }
                        if ka.contains(y) {
                            let k = choose|k: int| 0 <= k < ka.len() && ka[k] == y;
                            assert(kb[k] == y);
                        }
                        assert(kb[ka.len() as int] == c);
                    }
                    assert(tset.contains(c) <==> taken@.contains(c));
                    assert forall|y: TaskId| r@.contains(y) <==> spared_by(
                        v,
                        taken@.subrange(0, i as int),
                        tset,
                        y,
                    ) || (!tset.contains(y) && live_task(v, y) is Some && kb.contains(y)) by {
                        assert(before.contains(y) <==> spared_by(
                            v,
                            taken@.subrange(0, i as int),
                            tset,
                            y,
                        ) || (!tset.contains(y) && live_task(v, y) is Some && ka.contains(y)));
                        assert(kb.contains(y) <==> ka.contains(y) || y == c);
                        assert(r@.contains(y) <==> before.contains(y) || (keep && y == c));
                        if y == c && !keep && !before.contains(c) {
                            assert(tset.contains(c) || live_task(v, c) is None);
                        }
                    }
                }
                m = m + 1;
                assert(kids@.subrange(0, m as int) == kb);
                assert(forall|y: TaskId| r@.contains(y) <==> spared_by(
                        v,
                        taken@.subrange(0, i as int),
                        tset,
                        y,
                    ) || (!tset.contains(y) && live_task(v, y) is Some && kb.contains(y)));
                assert forall|y: TaskId| r@.contains(y) <==> spared_by(
                    v,
                    taken@.subrange(0, i as int),
                    tset,
                    y,
                ) || (!tset.contains(y) && live_task(v, y) is Some && kids@.subrange(0, m as int).contains(y)) by {
                    let ks = kids@.subrange(0, m as int);
                    assert(ks == kb);
                    if ks.contains(y) {
                        let k = choose|k: int| 0 <= k < ks.len() && ks[k] == y;
                        assert(kb[k] == y);
                    }
                    if kb.contains(y) {
                        let k = choose|k: int| 0 <= k < kb.len() && kb[k] == y;
                        assert(ks[k] == y);
                    }
                }
            }
            proof {
                assert(kids@.subrange(0, kids.len() as int) == kids@);
                let sub = taken@.subrange(0, i as int);
                let sub1 = taken@.subrange(0, i + 1);
                let ks = kids@.subrange(0, m as int);
                assert forall|c: TaskId| r@.contains(c) <==> spared_by(v, sub1, tset, c) by {
                    assert(r@.contains(c) <==> spared_by(v, sub, tset, c) || (!tset.contains(c)
                        && live_task(v, c) is Some && ks.contains(c)));
                    lemma_children_in_contains(v.edges, Some(p), c);
                    if ks.contains(c) {
                        let k = choose|k: int| 0 <= k < ks.len() && ks[k] == c;
                        assert(kids@[k] == c);
                    }
                    if kids@.contains(c) {
                        let k = choose|k: int| 0 <= k < kids@.len() && kids@[k] == c;
                        assert(ks[k] == c);
                    }
                    if spared_by(v, sub1, tset, c) {
                        let j = choose|j: int| 0 <= j < sub1.len() && #[trigger] edge_in(v.edges, Some(sub1[j]), c);
                        if j < i {
                            assert(sub[j] == sub1[j]);
                            assert(spared_by(v, sub, tset, c));
                        } else {
                            assert(sub1[j] == p);
                        }
                    }
                    if spared_by(v, sub, tset, c) {
                        let j = choose|j: int| 0 <= j < sub.len() && #[trigger] edge_in(v.edges, Some(sub[j]), c);
                        assert(sub1[j] == sub[j]);
                    }
                    if kids@.contains(c) && !tset.contains(c) && live_task(v, c) is Some {
                        assert(sub1[i as int] == p);
                        assert(edge_in(v.edges, Some(sub1[i as int]), c));
                    }
                }
            }
            i = i + 1;
        }
        assert(taken@.subrange(0, taken.len() as int) == taken@);
        r
    }

    /// Soft-deletes, at `now`, the live task `id` and what a subtree delete
    /// takes with it, drops their edges to their children, and bumps the
    /// spared children. Returns the ids it wrote, once each.
    fn delete_subtree(&mut self, id: TaskId, now: Timestamp) -> (ids: Vec<TaskId>)
        requires
            live_task(old(self)@, id) is Some,
        ensures
            final(self)@ == subtree_deleted(old(self)@, id, now),
            ids@.no_duplicates(),
            ids@.to_set() == doomed(old(self)@, id).union(spared(old(self)@, id)),
            forall|x: TaskId| doomed(old(self)@, id).contains(x) ==> any_task(old(self)@, x) is Some,
    {
        let ghost v0 = self@;
        let taken = self.doomed_ids(id);
        assert forall|x: TaskId| doomed(v0, id).contains(x) implies any_task(v0, x) is Some by {
            assert(taken@.to_set().contains(x));
        }
        let sp = self.spared_ids(&taken);
        let ghost dset = taken@.to_set();
        let ghost sset = spared(v0, id);
        proof {
            assert forall|j: int| 0 <= j < taken@.len() implies any_task(v0, #[trigger] taken@[j]) is Some by {
                assert(taken@.contains(taken@[j]));
            }
            assert forall|c: TaskId| sp@.contains(c) <==> sset.contains(c) by {
                if sp@.contains(c) {
                    let j = choose|j: int| 0 <= j < taken@.len() && #[trigger] edge_in(v0.edges, Some(taken@[j]), c);
                    assert(dset.contains(taken@[j]));
                }
                if sset.contains(c) {
                    let p = choose|p: TaskId| doomed(v0, id).contains(p) && #[trigger] edge_in(v0.edges, Some(p), c);
                    assert(taken@.contains(p));
                    let j = choose|j: int| 0 <= j < taken@.len() && taken@[j] == p;
                    assert(edge_in(v0.edges, Some(taken@[j]), c));
                }
            }
        }
        // Soft-delete the doomed tasks.
        let mut k: usize = 0;
        proof {
            assert(mark_rows(v0.tasks, Set::<TaskId>::empty(), tomb_fn(now)) =~= v0.tasks);
            assert(taken@.subrange(0, 0).to_set() =~= Set::<TaskId>::empty());
        }
        while k < taken.len()
            invariant
                k <= taken.len(),
                taken@.no_duplicates(),
                taken@.to_set() == doomed(v0, id),
                self@ == (StoreView {
                    tasks: mark_rows(v0.tasks, taken@.subrange(0, k as int).to_set(), tomb_fn(now)),
                    ..v0
                }),
                forall|j: int| 0 <= j < taken@.len() ==> any_task(v0, #[trigger] taken@[j]) is Some,
            decreases taken.len() - k,
        {
            let x = taken[k];
            let ghost done = taken@.subrange(0, k as int).to_set();
            proof {
                assert(!done.contains(x)) by {
                    if done.contains(x) {
                        let j = choose|j: int| 0 <= j < k && taken@.subrange(0, k as int)[j] == x;
                        assert(taken@[j] == taken@[k as int]);
                    }
                }
                assert(any_task(v0, taken@[k as int]) is Some);
                lemma_mark_rows_lookup(v0, done, tomb_fn(now), x);
                lemma_mark_rows_ids(v0.tasks, done, tomb_fn(now), x);
                lemma_task_index_bounds(v0.tasks, x);
            }
            let t = self.store.get_task_including_deleted(x);
            match t {
                Some(t) => {
                    let mut t = t;
                    t.deleted_at = Some(now);
                    t.updated_at = now;
                    proof {
                        lemma_mark_rows_step(v0.tasks, done, tomb_fn(now), x, t@);
                        taken@.subrange(0, k as int).lemma_push_to_set_commute(x);
                        assert(taken@.subrange(0, k + 1) == taken@.subrange(0, k as int).push(x));
                    }
                    self.store.put_task(&t);
                },
                None => {
                    proof {
                        assert(false);
                    }
                },
            }
            k = k + 1;
        }
        assert(taken@.subrange(0, taken.len() as int) == taken@);
        let ghost v1 = self@;
        // Bump the spared children.
        let mut k: usize = 0;
        proof {
            assert(mark_rows(v1.tasks, Set::<TaskId>::empty(), touch_fn(now)) =~= v1.tasks);
            assert(sp@.subrange(0, 0).to_set() =~= Set::<TaskId>::empty());
        }
        while k < sp.len()
            invariant
                k <= sp.len(),
                sp@.no_duplicates(),
                forall|c: TaskId| sp@.contains(c) <==> sset.contains(c),
                sset == spared(v0, id),
                v1 == (StoreView { tasks: mark_rows(v0.tasks, doomed(v0, id), tomb_fn(now)), ..v0 }),
                self@ == (StoreView {
                    tasks: mark_rows(v1.tasks, sp@.subrange(0, k as int).to_set(), touch_fn(now)),
                    ..v1
                }),
            decreases sp.len() - k,
        {
            let c = sp[k];
            let ghost done = sp@.subrange(0, k as int).to_set();
            proof {
                assert(!done.contains(c)) by {
                    if done.contains(c) {
                        let j = choose|j: int| 0 <= j < k && sp@.subrange(0, k as int)[j] == c;
                        assert(sp@[j] == sp@[k as int]);
                    }
                }
                assert(sp@.contains(c));
                assert(sset.contains(c));
                assert(!doomed(v0, id).contains(c));
                lemma_mark_rows_lookup(v0, doomed(v0, id), tomb_fn(now), c);
                lemma_mark_rows_lookup(v1, done, touch_fn(now), c);
                lemma_mark_rows_ids(v1.tasks, done, touch_fn(now), c);
                lemma_task_index_bounds(v1.tasks, c);
            }
            match self.store.get_task(c) {
                Some(t) => {
                    let mut t = t;
                    t.updated_at = now;
                    proof {
                        lemma_mark_rows_step(v1.tasks, done, touch_fn(now), c, t@);
                        sp@.subrange(0, k as int).lemma_push_to_set_commute(c);
                        assert(sp@.subrange(0, k + 1) == sp@.subrange(0, k as int).push(c));
                    }
                    self.store.put_task(&t);
                },
                None => {
                    proof {
                        assert(false);
                    }
                },
            }
            k = k + 1;
        }
        proof {
            assert(sp@.subrange(0, sp.len() as int) == sp@);
            assert(sp@.to_set() =~= sset);
        }
        self.store.remove_edges_under(&taken);
        let mut ids: Vec<TaskId> = Vec::new();
        let mut k: usize = 0;
        while k < taken.len()
            invariant
                k <= taken.len(),
                ids@ == taken@.subrange(0, k as int),
            decreases taken.len() - k,
        {
            ids.push(taken[k]);
            assert(ids@ =~= taken@.subrange(0, k + 1));
            k = k + 1;
        }
        let mut k: usize = 0;
        assert(taken@.subrange(0, taken.len() as int) == taken@);
        while k < sp.len()
            invariant
                k <= sp.len(),
                ids@ == taken@ + sp@.subrange(0, k as int),
            decreases sp.len() - k,
        {
            ids.push(sp[k]);
            assert(ids@ =~= taken@ + sp@.subrange(0, k + 1));
            k = k + 1;
        }
        proof {
            assert(sp@.subrange(0, sp.len() as int) == sp@);
            assert(self@ == subtree_deleted(v0, id, now));
            assert forall|i: int, j: int| 0 <= i < ids@.len() && 0 <= j < ids@.len() && i != j implies ids@[i]
                != ids@[j] by {
                if i < taken@.len() && j >= taken@.len() {
                    assert(sp@.contains(ids@[j]));
                    assert(!dset.contains(ids@[j]));
                    assert(taken@.contains(ids@[i]));
                } else if j < taken@.len() && i >= taken@.len() {
                    assert(sp@.contains(ids@[i]));
                    assert(!dset.contains(ids@[i]));
                    assert(taken@.contains(ids@[j]));
                } else if i >= taken@.len() {
                    assert(ids@[i] == sp@[i - taken@.len()]);
                    assert(ids@[j] == sp@[j - taken@.len()]);
                }
            }
            assert forall|c: TaskId| ids@.to_set().contains(c) <==> doomed(v0, id).union(spared(v0, id)).contains(c) by {
                if ids@.contains(c) {
                    let i = choose|i: int| 0 <= i < ids@.len() && ids@[i] == c;
                    if i < taken@.len() {
                        assert(taken@.contains(c));
                    } else {
                        assert(sp@[i - taken@.len()] == c);
                        assert(sp@.contains(c));
                    }
                }
                if taken@.contains(c) {
                    let i = choose|i: int| 0 <= i < taken@.len() && taken@[i] == c;
                    assert(ids@[i] == c);
                }
                if sp@.contains(c) {
                    let i = choose|i: int| 0 <= i < sp@.len() && sp@[i] == c;
                    assert(ids@[taken@.len() + i] == c);
                }
            }
            assert(ids@.to_set() =~= doomed(v0, id).union(spared(v0, id)));
        }
        ids
    }

    /// Soft-deletes, at `now`, the live task `id`, moves each of its
    /// children, in sibling order, from `id` to `id`'s own parents, and
    /// bumps the live ones. Returns the ids it wrote, once each.
    fn delete_promote(&mut self, id: TaskId, now: Timestamp) -> (ids: Vec<TaskId>)
        requires
            live_task(old(self)@, id) is Some,
        ensures
            final(self)@ == children_promoted(old(self)@, id, now),
            ids@.no_duplicates(),
            ids@.to_set() == set![id].union(promote_spared(old(self)@, id)),
            acyclic(old(self)@.edges) ==> acyclic(final(self)@.edges),
    {
        let ghost v0 = self@;
        let gps = self.store.list_parent_edges(id);
        let kids = self.store.list_child_edges(Some(id));
        let mut t = match self.store.get_task(id) {
            Some(t) => t,
            None => {
                proof {
                    assert(false);
                }
                return Vec::new();
            },
        };
        proof {
            lemma_found_id(v0, id);
            lemma_mark_rows_ids(v0.tasks, Set::<TaskId>::empty(), tomb_fn(now), id);
            assert(mark_rows(v0.tasks, Set::<TaskId>::empty(), tomb_fn(now)) =~= v0.tasks);
            lemma_task_index_bounds(v0.tasks, id);
        }
        t.deleted_at = Some(now);
        t.updated_at = now;
        proof {
            lemma_mark_rows_step(v0.tasks, Set::<TaskId>::empty(), tomb_fn(now), id, t@);
            assert(Set::<TaskId>::empty().insert(id) =~= set![id]);
        }
        self.store.put_task(&t);
        let ghost v1 = self@;
        let ghost rows1 = mark_rows(v0.tasks, set![id], tomb_fn(now));
        let mut ids: Vec<TaskId> = Vec::new();
        ids.push(id);
        proof {
            assert(mark_rows(rows1, Set::<TaskId>::empty(), touch_fn(now)) =~= rows1);
            assert(ids@.subrange(1, 1).to_set() =~= Set::<TaskId>::empty());
            assert(kids@.subrange(0, 0) =~= Seq::<TaskId>::empty());
            assert(self@.edges == v0.edges);
            assert forall|g: TaskId| gps@.contains(g) implies #[trigger] edge_in(self@.edges, Some(g), id) by {
                lemma_parents_in_contains(v0.edges, id, g);
            }
            assert forall|j: int| 0 <= j < kids@.len() implies edge_in(self@.edges, Some(id), #[trigger] kids@[j]) by {
                lemma_children_in_contains(v0.edges, Some(id), kids@[j]);
                assert(kids@.contains(kids@[j]));
            }
            if acyclic(v0.edges) {
                assert(!edge_in(v0.edges, Some(id), id)) by {
                    if edge_in(v0.edges, Some(id), id) {
                        let cyc = seq![id, id];
                        assert(step_ok(v0.edges, cyc, 0));
                        assert(is_up_path(v0.edges, cyc));
                    }
                }
            }
        }
        let mut m: usize = 0;
        while m < kids.len()
            invariant
                m <= kids.len(),
                gps@ == parents_in(v0.edges, id),
                kids@ == children_in(v0.edges, Some(id)),
                v1 == (StoreView { tasks: rows1, ..v0 }),
                rows1 == mark_rows(v0.tasks, set![id], tomb_fn(now)),
                ids@.len() >= 1,
                ids@[0] == id,
                ids@.no_duplicates(),
                forall|c: TaskId|
                    ids@.subrange(1, ids@.len() as int).contains(c) <==> kids@.subrange(0, m as int).contains(c)
                        && c != id && live_task(v0, c) is Some,
                self@ == (StoreView {
                    tasks: mark_rows(rows1, ids@.subrange(1, ids@.len() as int).to_set(), touch_fn(now)),
                    edges: promoted_edges(v0.edges, id, gps@, kids@.subrange(0, m as int)),
                    ..v0
                }),
                acyclic(v0.edges) ==> acyclic(self@.edges),
                acyclic(v0.edges) ==> forall|g: TaskId|
                    gps@.contains(g) ==> #[trigger] edge_in(self@.edges, Some(g), id),
                acyclic(v0.edges) ==> forall|j: int|
                    m <= j < kids@.len() && !kids@.subrange(0, m as int).contains(#[trigger] kids@[j])
                        ==> edge_in(self@.edges, Some(id), kids@[j]),
                acyclic(v0.edges) ==> forall|j: int, g: TaskId|
                    0 <= j < m && gps@.contains(g) ==> #[trigger] edge_in(self@.edges, Some(g), kids@[j]),
                acyclic(v0.edges) ==> !edge_in(v0.edges, Some(id), id),
            decreases kids.len() - m,
        {
            let c = kids[m];
            let ghost es = self@.edges;
            let ghost before_ids = ids@;
            let ghost ka = kids@.subrange(0, m as int);
            let ghost kb = kids@.subrange(0, m + 1);
            proof {
                assert(kb == ka.push(c));
                assert(kb.drop_last() == ka);
                lemma_children_in_contains(v0.edges, Some(id), c);
                assert(kids@.contains(c)) by {
                    assert(kids@[m as int] == c);
                }
            }
            let ps = self.store.list_parent_edges(c);
            let ns = merge_exec(without_exec(&ps, id), &gps);
            let parents = Parents::from_ids(copy_ids(&ns));
            proof {
                assert(wanted_parents(parents) == wanted_ids(ns@));
                if acyclic(v0.edges) {
                    assert(c != id);
                    assert forall|k: int| 0 <= k < ns@.len() implies edge_in(es, Some(#[trigger] ns@[k]), c)
                        || !reaches(es, ns@[k], c) by {
                        let w = ns@[k];
                        assert(ns@.contains(w));
                        lemma_merge_ids(without(ps@, id), gps@, w);
                        lemma_without(ps@, id, w);
                        if ps@.contains(w) {
                            lemma_parents_in_contains(es, c, w);
                        } else {
                            assert(gps@.contains(w));
                            if ka.contains(c) {
                                let j = choose|j: int| 0 <= j < ka.len() && ka[j] == c;
                                assert(kids@[j] == c);
                                assert(edge_in(es, Some(w), kids@[j]));
                            } else {
                                assert(edge_in(es, Some(id), kids@[m as int]));
                                assert(edge_in(es, Some(w), id));
                                lemma_no_way_back(es, c, id, w);
                            }
                        }
                    }
                    lemma_first_cycle_none_of(es, c, parents_ids(parents));
                    lemma_replace_keeps_acyclic(es, c, parents, Placement::End);
                }
            }
            self.store.replace_parent_edges(c, &parents, Placement::End);
            proof {
                assert(self@.edges == promoted_edges(v0.edges, id, gps@, kb));
            }
            let ghost rows2 = mark_rows(rows1, before_ids.subrange(1, before_ids.len() as int).to_set(), touch_fn(now));
            let fresh = c != id && !contains_id(&ids, c);
            let ghost mut pushed = false;
            if fresh {
                let ghost done = before_ids.subrange(1, before_ids.len() as int).to_set();
                proof {
                    assert(!done.contains(c)) by {
                        if done.contains(c) {
                            let k = choose|k: int| 0 <= k < before_ids.len() - 1 && before_ids.subrange(1, before_ids.len() as int)[k] == c;
                            assert(before_ids[k + 1] == c);
                        }
                    }
                    lemma_mark_rows_lookup(v0, set![id], tomb_fn(now), c);
                    lemma_mark_rows_lookup(v1, done, touch_fn(now), c);
                    lemma_mark_rows_ids(rows1, done, touch_fn(now), c);
                    lemma_mark_rows_ids(v0.tasks, set![id], tomb_fn(now), c);
                    lemma_task_index_bounds(v0.tasks, c);
                }
                match self.store.get_task(c) {
                    Some(ct) => {
                        let mut ct = ct;
                        ct.updated_at = now;
                        proof {
                            lemma_mark_rows_step(rows1, done, touch_fn(now), c, ct@);
                        }
                        self.store.put_task(&ct);
                        ids.push(c);
                        proof {
                            pushed = true;
                            lemma_no_dup_push_ids(before_ids, c);
                            let s0 = before_ids.subrange(1, before_ids.len() as int);
                            assert(ids@.subrange(1, ids@.len() as int) == s0.push(c));
                            s0.lemma_push_to_set_commute(c);
                        }
                    },
                    None => {
                        proof {
                            assert(live_task(StoreView { tasks: self@.tasks, ..v0 }, c) is None);
                            assert(live_task(v0, c) is None);
                        }
                    },
                }
            }
            proof {
                let s0 = before_ids.subrange(1, before_ids.len() as int);
                assert(pushed ==> ids@ == before_ids.push(c));
                assert(!pushed ==> ids@ == before_ids);
                assert(pushed ==> fresh && c != id && live_task(v0, c) is Some);
                assert(fresh ==> !before_ids.contains(c));
                assert(fresh && !pushed ==> live_task(v0, c) is None);
                let s1 = ids@.subrange(1, ids@.len() as int);
                assert forall|y: TaskId| kb.contains(y) <==> ka.contains(y) || y == c by {
                    if kb.contains(y) && y != c {
                        let k = choose|k: int| 0 <= k < kb.len() && kb[k] == y;
                        assert(ka[k] == y);
                    }
                    if ka.contains(y) {
                        let k = choose|k: int| 0 <= k < ka.len() && ka[k] == y;
                        assert(kb[k] == y);
                    }
                    assert(kb[ka.len() as int] == c);
                }
                assert forall|y: TaskId| s1.contains(y) <==> kb.contains(y) && y != id && live_task(v0, y) is Some by {
                    assert(s0.contains(y) <==> ka.contains(y) && y != id && live_task(v0, y) is Some);
                    if y == c && !pushed && fresh {
                        if s0.contains(c) {
                            let k = choose|k: int| 0 <= k < s0.len() && s0[k] == c;
                            assert(before_ids[k + 1] == c);
                        }
                    }
                    if pushed {
                        assert(s1 == s0.push(c));
                        if s1.contains(y) && y != c {
                            let k = choose|k: int| 0 <= k < s1.len() && s1[k] == y;
                            assert(s0[k] == y);
                        }
                        if s0.contains(y) {
                            let k = choose|k: int| 0 <= k < s0.len() && s0[k] == y;
                            assert(s1[k] == y);
                        }
                        assert(s1[s0.len() as int] == c);
                    }
                    if y == c && !pushed && c != id && live_task(v0, c) is Some {
                        if !fresh {
                            assert(before_ids.contains(c));
                            let k = choose|k: int| 0 <= k < before_ids.len() && before_ids[k] == c;
                            assert(k != 0);
                            assert(s0[k - 1] == c);
                        }
                    }
                }
                if acyclic(v0.edges) {
                    assert forall|g: TaskId| gps@.contains(g) implies #[trigger] edge_in(self@.edges, Some(g), id) by {
                        assert(edge_in(es, Some(g), id));
                    }
                    assert forall|j: int|
                        m + 1 <= j < kids@.len() && !kb.contains(#[trigger] kids@[j]) implies edge_in(
                        self@.edges,
                        Some(id),
                        kids@[j],
                    ) by {
                        assert(!ka.contains(kids@[j]));
                        assert(kids@[j] != c);
                    }
                    assert forall|j: int, g: TaskId|
                        0 <= j < m + 1 && gps@.contains(g) implies #[trigger] edge_in(self@.edges, Some(g), kids@[j]) by {
                        if kids@[j] == c {
                            lemma_merge_ids(without(ps@, id), gps@, g);
                            let k = choose|k: int| 0 <= k < ns@.len() && ns@[k] == g;
                            assert(wanted_ids(ns@)[k] == Some(g));
                        } else {
                            assert(j < m);
                            assert(edge_in(es, Some(g), kids@[j]));
                        }
                    }
                }
            }
            m = m + 1;
            proof {
                assert(kids@.subrange(0, m as int) == kb);
                let s1 = ids@.subrange(1, ids@.len() as int);
                assert forall|y: TaskId| s1.contains(y) <==> kids@.subrange(0, m as int).contains(y) && y != id
                    && live_task(v0, y) is Some by {
                    let km = kids@.subrange(0, m as int);
                    if km.contains(y) {
                        let k = choose|k: int| 0 <= k < km.len() && km[k] == y;
                        assert(kb[k] == y);
                    }
                    if kb.contains(y) {
                        let k = choose|k: int| 0 <= k < kb.len() && kb[k] == y;
                        assert(km[k] == y);
                    }
                }
            }
        }
        proof {
            let km = kids@.subrange(0, m as int);
            assert(km == kids@);
            let s1 = ids@.subrange(1, ids@.len() as int);
            assert forall|y: TaskId| s1.to_set().contains(y) <==> promote_spared(v0, id).contains(y) by {
                if km.contains(y) {
                    let k = choose|k: int| 0 <= k < km.len() && km[k] == y;
                    assert(kids@[k] == y);
                }
                if kids@.contains(y) {
                    let k = choose|k: int| 0 <= k < kids@.len() && kids@[k] == y;
                    assert(km[k] == y);
                }
            }
            assert(s1.to_set() =~= promote_spared(v0, id));
            assert(self@ == children_promoted(v0, id, now));
            assert forall|y: TaskId| ids@.to_set().contains(y) <==> set![id].union(promote_spared(v0, id)).contains(y) by {
                if y != id && ids@.contains(y) {
                    let k = choose|k: int| 0 <= k < ids@.len() && ids@[k] == y;
                    assert(s1[k - 1] == y);
                }
                if s1.contains(y) {
                    let k = choose|k: int| 0 <= k < s1.len() && s1[k] == y;
                    assert(ids@[k + 1] == y);
                }
                assert(ids@[0] == id);
            }
            assert(ids@.to_set() =~= set![id].union(promote_spared(v0, id)));
        }
        ids
    }

    /// Soft-deletes the live task `id` at the current time. `Subtree` also
    /// soft-deletes every task all of whose parents it takes, at every depth,
    /// drops the edges from the deleted tasks to their children, and bumps
    /// the children that keep another parent. `PromoteChildren` moves each
    /// child of `id` to `id`'s parents (to the top level when it has no
    /// other). Fails with `NotFound` for a missing or already deleted task.
    /// Returns every task it wrote, once, as it now stands.
    pub fn delete_task(&mut self, id: TaskId, mode: DeleteMode) -> (r: Result<Vec<Task>, CoreError>)
        ensures
            live_task(old(self)@, id) is None ==> r == Err::<Vec<Task>, CoreError>(
                CoreError::NotFound(id),
            ) && final(self)@ == old(self)@,
            live_task(old(self)@, id) is Some ==> (r matches Ok(v) && (ids_of(views(v@)).no_duplicates()
                && ids_of(views(v@)).to_set() == delete_touched(old(self)@, id, mode) && views(v@)
                == shown_all(final(self)@, any_rows(final(self)@, ids_of(views(v@)))) && exists|
                now: Timestamp,
            | #[trigger] deleted_state(old(self)@, id, mode, now) == final(self)@)),
            acyclic(old(self)@.edges) ==> acyclic(final(self)@.edges),
    {
        if self.store.get_task(id).is_none() {
            return Err(CoreError::NotFound(id));
        }
        let ghost v0 = self@;
        let now = Timestamp::now();
        let ids = match mode {
            DeleteMode::Subtree => {
                let ids = self.delete_subtree(id, now);
                proof {
                    if acyclic(v0.edges) {
                        lemma_cut_keeps_acyclic(v0.edges, doomed(v0, id));
                    }
                }
                ids
            },
            DeleteMode::PromoteChildren => self.delete_promote(id, now),
        };
        proof {
            assert(deleted_state(v0, id, mode, now) == self@);
            assert forall|k: int| 0 <= k < ids@.len() implies any_task(self@, #[trigger] ids@[k]) is Some by {
                assert(ids@.to_set().contains(ids@[k]));
                lemma_delete_keeps_rows(v0, id, mode, now, ids@[k]);
            }
            lemma_any_rows_ids(self@, ids@);
        }
        let tasks = self.any_tasks(&ids);
        let out = self.show_all(&tasks);
        proof {
            assert(ids_of(views(out@)) =~= ids_of(views(tasks@)));
        }
        Ok(out)
    }
}

} // verus!
