//! The rows of the terminal task list: tasks nested under their parents.
//!
//! `task_rows` walks the tasks depth-first from every root (a task with no
//! parent among the tasks), in input order, children in input order too; a
//! task under several parents is shown once under each. A walk never
//! revisits a task already on its own path, and does not go below a
//! collapsed task. Tasks no root's walk reaches (only possible when the
//! parents form a cycle) are then walked from, in input order, unless
//! already shown or hidden under a collapsed task.

use vstd::prelude::*;

use crate::hierarchy::lemma_bounded_visits;
use crate::ids::{TaskId, UserId};
use crate::model::{Task, TaskStatus, TaskView};

verus! {

/// One row of the task list.
#[derive(Debug, Clone, PartialEq, Eq)]
pub struct TaskRow {
    pub id: TaskId,
    pub title: String,
    /// The label of the task's type, or its key when no label is known.
    pub type_label: String,
    pub status: TaskStatus,
    pub assignee_name: Option<String>,
    /// How deep under the row's root.
    pub depth: usize,
    /// The task has at least one child among the tasks.
    pub has_children: bool,
    /// The task's children are hidden.
    pub collapsed: bool,
    /// For a collapsed task with children: how many of its direct children
    /// are complete, and how many it has.
    pub direct_summary: Option<(usize, usize)>,
}

pub struct RowView {
    pub id: TaskId,
    pub title: Seq<char>,
    pub type_label: Seq<char>,
    pub status: TaskStatus,
    pub assignee_name: Option<Seq<char>>,
    pub depth: int,
    pub has_children: bool,
    pub collapsed: bool,
    pub direct_summary: Option<(int, int)>,
}

impl View for TaskRow {
    type V = RowView;

    open spec fn view(&self) -> RowView {
        RowView {
            id: self.id,
            title: self.title@,
            type_label: self.type_label@,
            status: self.status,
            assignee_name: match self.assignee_name {
                Some(n) => Some(n@),
                None => None,
            },
            depth: self.depth as int,
            has_children: self.has_children,
            collapsed: self.collapsed,
            direct_summary: match self.direct_summary {
                Some((a, b)) => Some((a as int, b as int)),
                None => None,
            },
        }
    }
}

pub open spec fn row_views(rs: Seq<TaskRow>) -> Seq<RowView> {
    rs.map_values(|r: TaskRow| r@)
}

/// What a row is shown with: type labels by key, user names by id, and the
/// collapsed tasks.
pub struct Lookups {
    pub labels: Seq<(Seq<char>, Seq<char>)>,
    pub names: Seq<(UserId, Seq<char>)>,
    pub collapsed: Seq<TaskId>,
}

pub open spec fn lookups_of(
    labels: Seq<(String, String)>,
    names: Seq<(UserId, String)>,
    collapsed: Seq<TaskId>,
) -> Lookups {
    Lookups {
        labels: labels.map_values(|p: (String, String)| (p.0@, p.1@)),
        names: names.map_values(|p: (UserId, String)| (p.0, p.1@)),
        collapsed,
    }
}

/// The label the first entry with `key` gives.
pub open spec fn label_of(labels: Seq<(Seq<char>, Seq<char>)>, key: Seq<char>) -> Option<Seq<char>>
    decreases labels.len(),
{
    if labels.len() == 0 {
        None
    } else if labels[0].0 == key {
        Some(labels[0].1)
    } else {
        label_of(labels.drop_first(), key)
    }
}

/// The name the first entry with `id` gives.
pub open spec fn name_for(names: Seq<(UserId, Seq<char>)>, id: UserId) -> Option<Seq<char>>
    decreases names.len(),
{
    if names.len() == 0 {
        None
    } else if names[0].0 == id {
        Some(names[0].1)
    } else {
        name_for(names.drop_first(), id)
    }
}

/// How often `id` occurs in `s`.
pub open spec fn count_of(s: Seq<TaskId>, id: TaskId) -> nat
    decreases s.len(),
{
    if s.len() == 0 {
        0
    } else {
        count_of(s.drop_last(), id) + if s.last() == id {
            1nat
        } else {
            0nat
        }
    }
}

/// The children of `id` among the first `n` tasks, as indices in input
/// order, a task listed once per time it names `id` as a parent.
pub open spec fn kids_upto(ts: Seq<TaskView>, id: TaskId, n: int) -> Seq<int>
    decreases n,
{
    if n <= 0 {
        seq![]
    } else {
        kids_upto(ts, id, n - 1) + Seq::new(count_of(ts[n - 1].parent_ids, id), |k: int| n - 1)
    }
}

/// The children of `id`, as indices in input order.
pub open spec fn kids(ts: Seq<TaskView>, id: TaskId) -> Seq<int> {
    kids_upto(ts, id, ts.len() as int)
}

/// How many of the tasks at `ks` are complete.
pub open spec fn complete_among(ts: Seq<TaskView>, ks: Seq<int>) -> nat
    decreases ks.len(),
{
    if ks.len() == 0 {
        0
    } else {
        complete_among(ts, ks.drop_last()) + if ts[ks.last()].status == TaskStatus::Complete {
            1nat
        } else {
            0nat
        }
    }
}

/// The row of task `i` at `depth`.
pub open spec fn row_of(ts: Seq<TaskView>, lk: Lookups, i: int, depth: int) -> RowView {
    let t = ts[i];
    let ks = kids(ts, t.id);
    let has = ks.len() > 0;
    let coll = lk.collapsed.contains(t.id);
    RowView {
        id: t.id,
        title: t.title,
        type_label: match label_of(lk.labels, t.type_key) {
            Some(l) => l,
            None => t.type_key,
        },
        status: t.status,
        assignee_name: match t.assignee_id {
            Some(a) => name_for(lk.names, a),
            None => None,
        },
        depth,
        has_children: has,
        collapsed: coll,
        direct_summary: if has && coll {
            Some((complete_among(ts, ks) as int, ks.len() as int))
        } else {
            None
        },
    }
}

/// The rows of the walk from task `i` at `depth`, `path` holding the ids
/// above it on this walk: nothing when `i` is already on the path; else its
/// row, then (unless it is collapsed) the walks from each of its children.
/// `fuel` bounds the depth of the definition; `task_rows` always gives
/// enough.
pub open spec fn walk(ts: Seq<TaskView>, lk: Lookups, i: int, depth: int, path: Seq<TaskId>, fuel: nat) -> Seq<
    RowView,
>
    decreases fuel, 0int,
{
    if fuel == 0 || path.contains(ts[i].id) {
        seq![]
    } else if lk.collapsed.contains(ts[i].id) {
        seq![row_of(ts, lk, i, depth)]
    } else {
        seq![row_of(ts, lk, i, depth)] + walk_from(
            ts,
            lk,
            kids(ts, ts[i].id),
            0,
            depth + 1,
            path.push(ts[i].id),
            (fuel - 1) as nat,
        )
    }
}

/// The walks from each of `ks[j..]`, in order.
pub open spec fn walk_from(
    ts: Seq<TaskView>,
    lk: Lookups,
    ks: Seq<int>,
    j: int,
    depth: int,
    path: Seq<TaskId>,
    fuel: nat,
) -> Seq<RowView>
    decreases fuel, ks.len() - j + 1,
{
    if j < 0 || j >= ks.len() {
        seq![]
    } else {
        walk(ts, lk, ks[j], depth, path, fuel) + walk_from(ts, lk, ks, j + 1, depth, path, fuel)
    }
}

/// The ids of the tasks.
pub open spec fn task_ids(ts: Seq<TaskView>) -> Seq<TaskId> {
    ts.map_values(|t: TaskView| t.id)
}

/// Task `i` has no parent among the tasks.
pub open spec fn is_root(ts: Seq<TaskView>, i: int) -> bool {
    forall|k: int| 0 <= k < ts[i].parent_ids.len() ==> !task_ids(ts).contains(#[trigger] ts[i].parent_ids[k])
}

/// The walk from task `i` as a root.
pub open spec fn root_walk(ts: Seq<TaskView>, lk: Lookups, i: int) -> Seq<RowView> {
    walk(ts, lk, i, 0, seq![], (ts.len() + 1) as nat)
}

/// The walks from the roots among tasks `i..`, in input order.
pub open spec fn roots_from(ts: Seq<TaskView>, lk: Lookups, i: int) -> Seq<RowView>
    decreases ts.len() - i,
{
    if i < 0 || i >= ts.len() {
        seq![]
    } else {
        (if is_root(ts, i) {
            root_walk(ts, lk, i)
        } else {
            seq![]
        }) + roots_from(ts, lk, i + 1)
    }
}

/// `b` is a child of `a`: some task with id `b` names `a` as a parent.
pub open spec fn child_of(ts: Seq<TaskView>, a: TaskId, b: TaskId) -> bool {
    exists|j: int| 0 <= j < ts.len() && ts[j].id == b && #[trigger] ts[j].parent_ids.contains(a)
}

/// A walk downward through children.
pub open spec fn is_child_path(ts: Seq<TaskView>, p: Seq<TaskId>) -> bool {
    &&& p.len() >= 2
    &&& forall|k: int| 0 <= k < p.len() - 1 ==> #[trigger] child_of(ts, p[k], p[k + 1])
}

/// `b` lies below `a`: a child of it, or a child of one, and so on.
pub open spec fn below(ts: Seq<TaskView>, a: TaskId, b: TaskId) -> bool {
    exists|p: Seq<TaskId>| #[trigger] is_child_path(ts, p) && p[0] == a && p.last() == b
}

/// The tasks hidden under a collapsed row of `rows`.
pub open spec fn hidden_under(ts: Seq<TaskView>, rows: Seq<RowView>, b: TaskId) -> bool {
    exists|k: int| 0 <= k < rows.len() && #[trigger] rows[k].collapsed && below(ts, rows[k].id, b)
}

/// The task is shown in `rows` or hidden under a collapsed one.
pub open spec fn seen(ts: Seq<TaskView>, rows: Seq<RowView>, b: TaskId) -> bool {
    rows.map_values(|r: RowView| r.id).contains(b) || hidden_under(ts, rows, b)
}

/// After the walks in `rows`, the walks from tasks `i..` that are neither
/// shown nor hidden yet, in input order.
pub open spec fn fallback(ts: Seq<TaskView>, lk: Lookups, i: int, rows: Seq<RowView>) -> Seq<RowView>
    decreases ts.len() - i,
{
    if i < 0 || i >= ts.len() {
        seq![]
    } else if seen(ts, rows, ts[i].id) {
        fallback(ts, lk, i + 1, rows)
    } else {
        root_walk(ts, lk, i) + fallback(ts, lk, i + 1, rows + root_walk(ts, lk, i))
    }
}

/// All rows of the task list.
pub open spec fn all_rows(ts: Seq<TaskView>, lk: Lookups) -> Seq<RowView> {
    roots_from(ts, lk, 0) + fallback(ts, lk, 0, roots_from(ts, lk, 0))
}


pub open spec fn ints(v: Seq<usize>) -> Seq<int> {
    v.map_values(|x: usize| x as int)
}

pub open spec fn task_views(ts: Seq<Task>) -> Seq<TaskView> {
    ts.map_values(|t: Task| t@)
}

/// The children of `id` among `tasks`, as indices (see `kids`).
fn kids_of(tasks: &Vec<Task>, id: TaskId) -> (r: Vec<usize>)
    ensures
        ints(r@) == kids(task_views(tasks@), id),
        forall|k: int| 0 <= k < r@.len() ==> r@[k] < tasks@.len(),
{
    let ghost ts = task_views(tasks@);
    let mut r: Vec<usize> = Vec::new();
    let mut j: usize = 0;
    while j < tasks.len()
        invariant
            j <= tasks.len(),
            ts == task_views(tasks@),
            ints(r@) == kids_upto(ts, id, j as int),
            forall|k: int| 0 <= k < r@.len() ==> r@[k] < tasks@.len(),
        decreases tasks.len() - j,
    {
        let ps = &tasks[j].parent_ids;
        let ghost r0 = ints(r@);
        assert(ts[j as int] == tasks@[j as int]@);
        let mut m: usize = 0;
        while m < ps.len()
            invariant
                m <= ps.len(),
                j < tasks.len(),
                ps@ == ts[j as int].parent_ids,
                ints(r@) == r0 + Seq::new(count_of(ps@.subrange(0, m as int), id), |k: int| j as int),
                forall|k: int| 0 <= k < r@.len() ==> r@[k] < tasks@.len(),
            decreases ps.len() - m,
        {
            let ghost sub = ps@.subrange(0, m + 1);
            assert(sub.drop_last() == ps@.subrange(0, m as int));
            assert(sub.last() == ps@[m as int]);
            let ghost before = ints(r@);
            if ps[m] == id {
                r.push(j);
                assert(ints(r@) =~= before.push(j as int));
            }
            assert(ints(r@) =~= r0 + Seq::new(count_of(sub, id), |k: int| j as int));
            m = m + 1;
        }
        assert(ps@.subrange(0, ps.len() as int) == ps@);
        assert(kids_upto(ts, id, j + 1) == kids_upto(ts, id, j as int) + Seq::new(
            count_of(ts[j as int].parent_ids, id),
            |k: int| j as int,
        ));
        j = j + 1;
    }
    r
}

/// How many of the tasks at `ks` are complete.
fn complete_count(tasks: &Vec<Task>, ks: &Vec<usize>) -> (n: usize)
    requires
        forall|k: int| 0 <= k < ks@.len() ==> ks@[k] < tasks@.len(),
    ensures
        n == complete_among(task_views(tasks@), ints(ks@)),
{
    let ghost ts = task_views(tasks@);
    let mut n: usize = 0;
    let mut i: usize = 0;
    while i < ks.len()
        invariant
            i <= ks.len(),
            ts == task_views(tasks@),
            forall|k: int| 0 <= k < ks@.len() ==> ks@[k] < tasks@.len(),
            n == complete_among(ts, ints(ks@).subrange(0, i as int)),
            n <= i,
        decreases ks.len() - i,
    {
        let ghost sub = ints(ks@).subrange(0, i + 1);
        assert(sub.drop_last() == ints(ks@).subrange(0, i as int));
        assert(sub.last() == ks@[i as int] as int);
        assert(ts[ks@[i as int] as int] == tasks@[ks@[i as int] as int]@);
        if tasks[ks[i]].status == TaskStatus::Complete {
            n = n + 1;
        }
        i = i + 1;
    }
    assert(ints(ks@).subrange(0, ks.len() as int) == ints(ks@));
    n
}

fn label_lookup(labels: &Vec<(String, String)>, key: &str) -> (r: Option<String>)
    ensures
        match label_of(labels@.map_values(|p: (String, String)| (p.0@, p.1@)), key@) {
            Some(l) => r matches Some(x) && x@ == l,
            None => r is None,
        },
{
    let ghost ls = labels@.map_values(|p: (String, String)| (p.0@, p.1@));
    let mut i: usize = 0;
    assert(ls.subrange(0, ls.len() as int) == ls);
    while i < labels.len()
        invariant
            i <= labels.len(),
            ls == labels@.map_values(|p: (String, String)| (p.0@, p.1@)),
            label_of(ls, key@) == label_of(ls.subrange(i as int, ls.len() as int), key@),
        decreases labels.len() - i,
    {
        let ghost rest = ls.subrange(i as int, ls.len() as int);
        assert(rest[0] == (labels@[i as int].0@, labels@[i as int].1@));
        assert(rest.drop_first() == ls.subrange(i + 1, ls.len() as int));
        if crate::text::same_text(labels[i].0.as_str(), key) {
            return Some(labels[i].1.clone());
        }
        i = i + 1;
    }
    None
}

fn name_lookup(names: &Vec<(UserId, String)>, id: UserId) -> (r: Option<String>)
    ensures
        match name_for(names@.map_values(|p: (UserId, String)| (p.0, p.1@)), id) {
            Some(n) => r matches Some(x) && x@ == n,
            None => r is None,
        },
{
    let ghost ns = names@.map_values(|p: (UserId, String)| (p.0, p.1@));
    let mut i: usize = 0;
    assert(ns.subrange(0, ns.len() as int) == ns);
    while i < names.len()
        invariant
            i <= names.len(),
            ns == names@.map_values(|p: (UserId, String)| (p.0, p.1@)),
            name_for(ns, id) == name_for(ns.subrange(i as int, ns.len() as int), id),
        decreases names.len() - i,
    {
        let ghost rest = ns.subrange(i as int, ns.len() as int);
        assert(rest[0] == (names@[i as int].0, names@[i as int].1@));
        assert(rest.drop_first() == ns.subrange(i + 1, ns.len() as int));
        if names[i].0 == id {
            return Some(names[i].1.clone());
        }
        i = i + 1;
    }
    None
}

/// The row of task `i` at `depth`.
fn make_row(
    tasks: &Vec<Task>,
    labels: &Vec<(String, String)>,
    names: &Vec<(UserId, String)>,
    collapsed: &Vec<TaskId>,
    i: usize,
    depth: usize,
) -> (r: TaskRow)
    requires
        i < tasks@.len(),
    ensures
        r@ == row_of(task_views(tasks@), lookups_of(labels@, names@, collapsed@), i as int, depth as int),
{
    let t = &tasks[i];
    let ks = kids_of(tasks, t.id);
    let has = ks.len() > 0;
    let coll = crate::hierarchy::contains_id(collapsed, t.id);
    let type_label = match label_lookup(labels, t.type_key.as_str()) {
        Some(l) => l,
        None => t.type_key.clone(),
    };
    let assignee_name = match t.assignee_id {
        Some(a) => name_lookup(names, a),
        None => None,
    };
    let direct_summary = if has && coll {
        Some((complete_count(tasks, &ks), ks.len()))
    } else {
        None
    };
    assert(task_views(tasks@)[i as int] == t@);
    TaskRow {
        id: t.id,
        title: t.title.clone(),
        type_label,
        status: t.status,
        assignee_name,
        depth,
        has_children: has,
        collapsed: coll,
        direct_summary,
    }
}


/// One level of the walk in progress: the children still to walk from
/// (`ks[next..]`) and their depth.
struct Frame {
    ks: Vec<usize>,
    next: usize,
    depth: usize,
}

pub struct FrameView {
    pub ks: Seq<int>,
    pub next: int,
    pub depth: int,
}

spec fn frame_views(fs: Seq<Frame>) -> Seq<FrameView> {
    fs.map_values(|f: Frame| FrameView { ks: ints(f.ks@), next: f.next as int, depth: f.depth as int })
}

/// The rows the walk in progress has still to emit: the rest of the top
/// level, then the rest of each level below it. Level `k` walks with the
/// first `k` ids of `anc` as its path.
spec fn frames_rest(ts: Seq<TaskView>, lk: Lookups, fs: Seq<FrameView>, anc: Seq<TaskId>, big: nat) -> Seq<
    RowView,
>
    decreases fs.len(),
{
    if fs.len() == 0 {
        seq![]
    } else {
        let t = fs.len() - 1;
        walk_from(ts, lk, fs[t].ks, fs[t].next, fs[t].depth, anc.subrange(0, t), (big - t) as nat)
            + frames_rest(ts, lk, fs.drop_last(), anc, big)
    }
}

/// How many steps the walk from task `i` takes.
spec fn wcost(ts: Seq<TaskView>, lk: Lookups, i: int, path: Seq<TaskId>, fuel: nat) -> nat
    decreases fuel, 0int,
{
    if fuel == 0 || path.contains(ts[i].id) || lk.collapsed.contains(ts[i].id) {
        1
    } else {
        2 + cost_from(ts, lk, kids(ts, ts[i].id), 0, path.push(ts[i].id), (fuel - 1) as nat)
    }
}

spec fn cost_from(ts: Seq<TaskView>, lk: Lookups, ks: Seq<int>, j: int, path: Seq<TaskId>, fuel: nat) -> nat
    decreases fuel, ks.len() - j + 1,
{
    if j < 0 || j >= ks.len() {
        0
    } else {
        wcost(ts, lk, ks[j], path, fuel) + cost_from(ts, lk, ks, j + 1, path, fuel)
    }
}

/// How many steps the walk in progress has still to take.
spec fn frames_cost(ts: Seq<TaskView>, lk: Lookups, fs: Seq<FrameView>, anc: Seq<TaskId>, big: nat) -> nat
    decreases fs.len(),
{
    if fs.len() == 0 {
        0
    } else {
        let t = fs.len() - 1;
        1 + cost_from(ts, lk, fs[t].ks, fs[t].next, anc.subrange(0, t), (big - t) as nat)
            + frames_cost(ts, lk, fs.drop_last(), anc, big)
    }
}

/// Only the first `fs.len() - 1` ids of `anc` matter.
proof fn lemma_frames_prefix(
    ts: Seq<TaskView>,
    lk: Lookups,
    fs: Seq<FrameView>,
    a1: Seq<TaskId>,
    a2: Seq<TaskId>,
    big: nat,
)
    requires
        fs.len() > 0 ==> (a1.len() >= fs.len() - 1 && a2.len() >= fs.len() - 1 && a1.subrange(
            0,
            fs.len() - 1,
        ) == a2.subrange(0, fs.len() - 1)),
    ensures
        frames_rest(ts, lk, fs, a1, big) == frames_rest(ts, lk, fs, a2, big),
        frames_cost(ts, lk, fs, a1, big) == frames_cost(ts, lk, fs, a2, big),
    decreases fs.len(),
{
    if fs.len() > 0 {
        let t = fs.len() - 1;
        assert(a1.subrange(0, t) == a2.subrange(0, t));
        if fs.len() > 1 {
            assert(a1.subrange(0, t - 1) == a1.subrange(0, t).subrange(0, t - 1));
            assert(a2.subrange(0, t - 1) == a2.subrange(0, t).subrange(0, t - 1));
        }
        lemma_frames_prefix(ts, lk, fs.drop_last(), a1, a2, big);
    }
}

/// Each level's depth is its place on the stack, its cursor lies within its
/// children, and its children are tasks.
spec fn frames_ok(fs: Seq<FrameView>, n: int) -> bool {
    forall|k: int|
        #![trigger fs[k]]
        0 <= k < fs.len() ==> {
            &&& fs[k].depth == k
            &&& 0 <= fs[k].next <= fs[k].ks.len()
            &&& forall|m: int| 0 <= m < fs[k].ks.len() ==> 0 <= #[trigger] fs[k].ks[m] < n
        }
}

proof fn lemma_frames_ok_drop(fs: Seq<FrameView>, n: int)
    requires
        frames_ok(fs, n),
        fs.len() > 0,
    ensures
        frames_ok(fs.drop_last(), n),
{
    assert forall|k: int| 0 <= k < fs.drop_last().len() implies #[trigger] fs.drop_last()[k] == fs[k] by {}
}

proof fn lemma_frames_ok_push(fs: Seq<FrameView>, f: FrameView, n: int)
    requires
        frames_ok(fs, n),
        f.depth == fs.len(),
        0 <= f.next <= f.ks.len(),
        forall|m: int| 0 <= m < f.ks.len() ==> 0 <= #[trigger] f.ks[m] < n,
    ensures
        frames_ok(fs.push(f), n),
{
    assert forall|k: int| 0 <= k < fs.len() implies #[trigger] fs.push(f)[k] == fs[k] by {}
    assert(fs.push(f)[fs.len() as int] == f);
}

proof fn lemma_wcost_pos(ts: Seq<TaskView>, lk: Lookups, i: int, path: Seq<TaskId>, fuel: nat)
    ensures
        wcost(ts, lk, i, path, fuel) >= 1,
{
}

fn frame_of(ks: Vec<usize>, next: usize, depth: usize) -> (f: Frame)
    ensures
        f.ks@ == ks@,
        f.next == next,
        f.depth == depth,
{
    Frame { ks, next, depth }
}

/// Appends to `rows` the rows of the walk from task `root` as a root (see
/// `root_walk`), with an explicit stack so that a deep hierarchy needs no
/// recursion.
#[verifier::rlimit(50)]
fn visit(
    tasks: &Vec<Task>,
    labels: &Vec<(String, String)>,
    names: &Vec<(UserId, String)>,
    collapsed: &Vec<TaskId>,
    root: usize,
    rows: &mut Vec<TaskRow>,
)
    requires
        root < tasks@.len(),
    ensures
        row_views(final(rows)@) == row_views(old(rows)@) + root_walk(
            task_views(tasks@),
            lookups_of(labels@, names@, collapsed@),
            root as int,
        ),
{
    let ghost ts = task_views(tasks@);
    let ghost lk = lookups_of(labels@, names@, collapsed@);
    let ghost big: nat = (tasks@.len() + 1) as nat;
    let ghost ids = task_ids(ts);
    let ghost n = tasks@.len() as int;
    let mut top: Vec<usize> = Vec::new();
    top.push(root);
    let mut frames: Vec<Frame> = Vec::new();
    frames.push(frame_of(top, 0, 0));
    let mut anc: Vec<TaskId> = Vec::new();
    proof {
        let fv = frame_views(frames@);
        let ks0 = seq![root as int];
        let e = Seq::<TaskId>::empty();
        assert(fv.len() == 1);
        assert(fv[0].ks =~= ks0);
        assert(fv.drop_last() =~= Seq::<FrameView>::empty());
        assert(anc@.subrange(0, 0) =~= e);
        assert(walk_from(ts, lk, ks0, 1, 0, e, big) == Seq::<RowView>::empty());
        assert(walk_from(ts, lk, ks0, 0, 0, e, big) == walk(ts, lk, root as int, 0, e, big)
            + walk_from(ts, lk, ks0, 1, 0, e, big));
        assert(frames_rest(ts, lk, fv, anc@, big) == walk_from(ts, lk, ks0, 0, 0, e, big)
            + frames_rest(ts, lk, fv.drop_last(), anc@, big));
        assert(frames_rest(ts, lk, fv, anc@, big) =~= root_walk(ts, lk, root as int));
        assert(frames_ok(fv, n)) by {
            assert(fv[0] == FrameView { ks: ks0, next: 0, depth: 0 });
        }
    }
    while frames.len() > 0
        invariant
            ts == task_views(tasks@),
            lk == lookups_of(labels@, names@, collapsed@),
            big == tasks@.len() + 1,
            n == tasks@.len(),
            ids == task_ids(ts),
            frames@.len() == anc@.len() + 1 || (frames@.len() == 0 && anc@.len() == 0),
            anc@.no_duplicates(),
            forall|k: int| 0 <= k < anc@.len() ==> ids.contains(#[trigger] anc@[k]),
            frames_ok(frame_views(frames@), n),
            row_views(rows@) + frames_rest(ts, lk, frame_views(frames@), anc@, big) == row_views(
                old(rows)@,
            ) + root_walk(ts, lk, root as int),
        decreases frames_cost(ts, lk, frame_views(frames@), anc@, big),
    {
        proof {
            assert forall|y: TaskId| anc@.contains(y) implies ids.contains(y) by {
                let k = choose|k: int| 0 <= k < anc@.len() && anc@[k] == y;
                assert(ids.contains(anc@[k]));
            }
            lemma_bounded_visits(anc@, ids);
        }
        let ghost fs0 = frame_views(frames@);
        let ghost anc0 = anc@;
        let ghost rows0 = row_views(rows@);
        let t = frames.len() - 1;
        let mut f = frames.pop().unwrap();
        let ghost fsd = frame_views(frames@);
        let ghost fk = ints(f.ks@);
        let ghost path = anc0.subrange(0, t as int);
        let ghost fuel: nat = (big - t) as nat;
        proof {
            assert(fs0.drop_last() =~= fsd);
            assert(fs0[t as int] == FrameView { ks: fk, next: f.next as int, depth: f.depth as int });
            assert(f.depth == t);
            lemma_frames_ok_drop(fs0, n);
            assert(frames_rest(ts, lk, fs0, anc0, big) == walk_from(ts, lk, fk, f.next as int, t as int, path, fuel)
                + frames_rest(ts, lk, fsd, anc0, big));
            assert(frames_cost(ts, lk, fs0, anc0, big) == 1 + cost_from(ts, lk, fk, f.next as int, path, fuel)
                + frames_cost(ts, lk, fsd, anc0, big));
            assert(anc0.len() == t);
            assert(path =~= anc0);
            assert(fuel >= 1);
        }
        if f.next >= f.ks.len() {
            if anc.len() > 0 {
                anc.pop();
            }
            proof {
                if t > 0 {
                    assert(anc@.subrange(0, t - 1) =~= anc0.subrange(0, t - 1));
                }
                lemma_frames_prefix(ts, lk, fsd, anc0, anc@, big);
                assert(walk_from(ts, lk, fk, f.next as int, t as int, path, fuel) == Seq::<RowView>::empty());
                assert(cost_from(ts, lk, fk, f.next as int, path, fuel) == 0);
                assert(row_views(rows@) + frames_rest(ts, lk, frame_views(frames@), anc@, big) =~= rows0
                    + frames_rest(ts, lk, fs0, anc0, big));
                assert forall|k: int| 0 <= k < anc@.len() implies ids.contains(#[trigger] anc@[k]) by {
                    assert(anc@[k] == anc0[k]);
                }
                assert(anc@.no_duplicates()) by {
                    assert forall|a: int, b: int|
                        0 <= a < anc@.len() && 0 <= b < anc@.len() && a != b implies anc@[a] != anc@[b] by {
                        assert(anc@[a] == anc0[a] && anc@[b] == anc0[b]);
                    }
                }
            }
            continue;
        }
        let c = f.ks[f.next];
        let j = f.next;
        f.next = f.next + 1;
        let depth = f.depth;
        proof {
            assert(fk[j as int] == c as int);
            assert(fs0[t as int].ks[j as int] == c as int);
        }
        let id = tasks[c].id;
        proof {
            assert(ts[c as int] == tasks@[c as int]@);
            assert(ts[c as int].id == id);
            assert(cost_from(ts, lk, fk, j as int, path, fuel) == wcost(ts, lk, c as int, path, fuel)
                + cost_from(ts, lk, fk, j + 1, path, fuel));
            assert(walk_from(ts, lk, fk, j as int, t as int, path, fuel) == walk(ts, lk, c as int, t as int, path, fuel)
                + walk_from(ts, lk, fk, j + 1, t as int, path, fuel));
            lemma_wcost_pos(ts, lk, c as int, path, fuel);
        }
        frames.push(f);
        let ghost fs1 = frame_views(frames@);
        proof {
            let nf = FrameView { ks: fk, next: j + 1, depth: t as int };
            assert(fs1 =~= fsd.push(nf));
            assert(fs1.drop_last() =~= fsd);
            assert(fs1[t as int] == nf);
            lemma_frames_ok_push(fsd, nf, n);
            assert(frames_rest(ts, lk, fs1, anc0, big) == walk_from(ts, lk, fk, j + 1, t as int, path, fuel)
                + frames_rest(ts, lk, fsd, anc0, big));
            assert(frames_cost(ts, lk, fs1, anc0, big) == 1 + cost_from(ts, lk, fk, j + 1, path, fuel)
                + frames_cost(ts, lk, fsd, anc0, big));
        }
        if crate::hierarchy::contains_id(&anc, id) {
            proof {
                assert(walk(ts, lk, c as int, t as int, path, fuel) == Seq::<RowView>::empty());
                assert(wcost(ts, lk, c as int, path, fuel) == 1);
                assert(row_views(rows@) + frames_rest(ts, lk, fs1, anc@, big) =~= rows0
                    + frames_rest(ts, lk, fs0, anc0, big));
            }
            continue;
        }
        let row = make_row(tasks, labels, names, collapsed, c, depth);
        let ghost before_rows = rows@;
        rows.push(row);
        proof {
            assert(row_views(rows@) =~= row_views(before_rows).push(row@));
        }
        if crate::hierarchy::contains_id(collapsed, id) {
            proof {
                assert(walk(ts, lk, c as int, t as int, path, fuel) == seq![row_of(ts, lk, c as int, t as int)]);
                assert(wcost(ts, lk, c as int, path, fuel) == 1);
                assert(row_views(rows@) + frames_rest(ts, lk, fs1, anc@, big) =~= rows0
                    + frames_rest(ts, lk, fs0, anc0, big));
            }
            continue;
        }
        proof {
            assert(ids[c as int] == id);
            assert forall|y: TaskId| anc0.push(id).contains(y) implies ids.contains(y) by {
                if y != id {
                    let k = choose|k: int| 0 <= k < anc0.push(id).len() && anc0.push(id)[k] == y;
                    assert(anc0[k] == y);
                }
            }
            assert(anc0.push(id).no_duplicates()) by {
                assert forall|a: int, b: int|
                    0 <= a < anc0.push(id).len() && 0 <= b < anc0.push(id).len() && a != b
                    implies anc0.push(id)[a] != anc0.push(id)[b] by {
                    if a == anc0.len() {
                        assert(anc0.contains(anc0[b]));
                    } else if b == anc0.len() {
                        assert(anc0.contains(anc0[a]));
                    }
                }
            }
            lemma_bounded_visits(anc0.push(id), ids);
        }
        let ks = kids_of(tasks, id);
        anc.push(id);
        frames.push(frame_of(ks, 0, depth + 1));
        proof {
            let fs2 = frame_views(frames@);
            let nf2 = FrameView { ks: kids(ts, id), next: 0, depth: t + 1 };
            let child_path = path.push(id);
            assert(fs2 =~= fs1.push(nf2));
            assert(fs2.drop_last() =~= fs1);
            assert(fs2[t + 1] == nf2);
            lemma_frames_ok_push(fs1, nf2, n);
            assert(anc@ =~= anc0.push(id));
            assert(anc@.subrange(0, t + 1) =~= child_path);
            assert(anc@.subrange(0, t as int) =~= anc0.subrange(0, t as int));
            lemma_frames_prefix(ts, lk, fs1, anc0, anc@, big);
            assert(frames_rest(ts, lk, fs2, anc@, big) == walk_from(ts, lk, kids(ts, id), 0, t + 1, child_path, (fuel - 1) as nat)
                + frames_rest(ts, lk, fs1, anc@, big));
            assert(frames_cost(ts, lk, fs2, anc@, big) == 1 + cost_from(ts, lk, kids(ts, id), 0, child_path, (fuel - 1) as nat)
                + frames_cost(ts, lk, fs1, anc@, big));
            assert(walk(ts, lk, c as int, t as int, path, fuel) == seq![row_of(ts, lk, c as int, t as int)]
                + walk_from(ts, lk, kids(ts, id), 0, t + 1, child_path, (fuel - 1) as nat));
            assert(wcost(ts, lk, c as int, path, fuel) == 2 + cost_from(ts, lk, kids(ts, id), 0, child_path, (fuel - 1) as nat));
            assert(row_views(rows@) + frames_rest(ts, lk, fs2, anc@, big) =~= rows0
                + frames_rest(ts, lk, fs0, anc0, big));
        }
    }
    assert(frame_views(frames@) =~= Seq::<FrameView>::empty());
}


/// `b` lies below `v` through one more child.
proof fn lemma_below_extend(ts: Seq<TaskView>, a: TaskId, v: TaskId, w: TaskId)
    requires
        below(ts, a, v),
        child_of(ts, v, w),
    ensures
        below(ts, a, w),
{
    let p = choose|p: Seq<TaskId>| #[trigger] is_child_path(ts, p) && p[0] == a && p.last() == v;
    let q = p.push(w);
    assert forall|k: int| 0 <= k < q.len() - 1 implies #[trigger] child_of(ts, q[k], q[k + 1]) by {
        if k < p.len() - 1 {
            assert(child_of(ts, p[k], p[k + 1]));
        }
    }
    assert(is_child_path(ts, q));
    assert(q[0] == a && q.last() == w);
}

proof fn lemma_below_child(ts: Seq<TaskView>, a: TaskId, w: TaskId)
    requires
        child_of(ts, a, w),
    ensures
        below(ts, a, w),
{
    let q = seq![a, w];
    assert(child_of(ts, q[0], q[1]));
    assert(is_child_path(ts, q));
    assert(q[0] == a && q.last() == w);
}

/// A set holding every child of `a` and closed under "child of" holds
/// everything below `a`.
proof fn lemma_below_in_closed(ts: Seq<TaskView>, vis: Seq<TaskId>, a: TaskId, b: TaskId)
    requires
        forall|w: TaskId| #[trigger] child_of(ts, a, w) ==> vis.contains(w),
        forall|v: TaskId, w: TaskId| vis.contains(v) && #[trigger] child_of(ts, v, w) ==> vis.contains(w),
        below(ts, a, b),
    ensures
        vis.contains(b),
{
    let p = choose|p: Seq<TaskId>| #[trigger] is_child_path(ts, p) && p[0] == a && p.last() == b;
    lemma_child_path_in(ts, vis, p, p.len() - 1);
}

proof fn lemma_child_path_in(ts: Seq<TaskView>, vis: Seq<TaskId>, p: Seq<TaskId>, k: int)
    requires
        is_child_path(ts, p),
        1 <= k < p.len(),
        forall|w: TaskId| #[trigger] child_of(ts, p[0], w) ==> vis.contains(w),
        forall|v: TaskId, w: TaskId| vis.contains(v) && #[trigger] child_of(ts, v, w) ==> vis.contains(w),
    ensures
        vis.contains(p[k]),
    decreases k,
{
    let k1 = k - 1;
    assert(child_of(ts, p[k1], p[k1 + 1]));
    assert(p[k1 + 1] == p[k]);
    if k > 1 {
        lemma_child_path_in(ts, vis, p, k1);
    }
}

/// The ids of the children of `id` among `tasks`.
fn child_ids(tasks: &Vec<Task>, id: TaskId) -> (r: Vec<TaskId>)
    ensures
        forall|b: TaskId| r@.contains(b) <==> child_of(task_views(tasks@), id, b),
        forall|b: TaskId| r@.contains(b) ==> task_ids(task_views(tasks@)).contains(b),
{
    let ghost ts = task_views(tasks@);
    let mut r: Vec<TaskId> = Vec::new();
    let mut j: usize = 0;
    while j < tasks.len()
        invariant
            j <= tasks.len(),
            ts == task_views(tasks@),
            forall|b: TaskId|
                #[trigger] r@.contains(b) <==> exists|k: int|
                    0 <= k < j && ts[k].id == b && #[trigger] ts[k].parent_ids.contains(id),
            forall|b: TaskId| r@.contains(b) ==> task_ids(ts).contains(b),
        decreases tasks.len() - j,
    {
        let ghost r0 = r@;
        let ghost tj = ts[j as int];
        assert(tj == tasks@[j as int]@);
        assert(task_ids(ts)[j as int] == tj.id);
        let has = crate::hierarchy::contains_id(&tasks[j].parent_ids, id);
        if has {
            r.push(tasks[j].id);
        }
        proof {
            assert forall|b: TaskId| #[trigger] r@.contains(b) <==> (r0.contains(b) || (has && b == tj.id)) by {
                if r@.contains(b) && !r0.contains(b) {
                    let k = choose|k: int| 0 <= k < r@.len() && r@[k] == b;
                    if k < r0.len() {
                        assert(r0[k] == b);
                    }
                }
                if r0.contains(b) {
                    let k = choose|k: int| 0 <= k < r0.len() && r0[k] == b;
                    assert(r@[k] == b);
                }
                if has && b == tj.id {
                    assert(r@[r0.len() as int] == b);
                }
            }
            assert forall|b: TaskId|
                #[trigger] r@.contains(b) <==> exists|k: int|
                    0 <= k < j + 1 && ts[k].id == b && #[trigger] ts[k].parent_ids.contains(id) by {
                if exists|k: int| 0 <= k < j + 1 && ts[k].id == b && #[trigger] ts[k].parent_ids.contains(id) {
                    let k = choose|k: int| 0 <= k < j + 1 && ts[k].id == b && #[trigger] ts[k].parent_ids.contains(id);
                    if k == j {
                        assert(has);
                    } else {
                        assert(r0.contains(b));
                    }
                    assert(r@.contains(b));
                }
                if r@.contains(b) {
                    if r0.contains(b) {
                        let k = choose|k: int| 0 <= k < j && ts[k].id == b && #[trigger] ts[k].parent_ids.contains(id);
                        assert(0 <= k < j + 1);
                    } else {
                        assert(has && b == tj.id);
                        assert(ts[j as int].parent_ids.contains(id));
                    }
                }
            }
        }
        j = j + 1;
    }
    r
}

/// The ids of all tasks below `a`.
fn below_ids(tasks: &Vec<Task>, a: TaskId) -> (r: Vec<TaskId>)
    ensures
        forall|b: TaskId| r@.contains(b) <==> below(task_views(tasks@), a, b),
{
    let ghost ts = task_views(tasks@);
    let ghost ids = task_ids(ts);
    let mut visited: Vec<TaskId> = Vec::new();
    let mut pending = child_ids(tasks, a);
    proof {
        assert forall|w: TaskId| pending@.contains(w) implies below(ts, a, w) by {
            lemma_below_child(ts, a, w);
        }
    }
    while pending.len() > 0
        invariant
            ts == task_views(tasks@),
            ids == task_ids(ts),
            visited@.no_duplicates(),
            forall|v: TaskId| visited@.contains(v) ==> ids.contains(v),
            forall|v: TaskId| pending@.contains(v) ==> ids.contains(v),
            forall|v: TaskId| visited@.contains(v) || pending@.contains(v) ==> below(ts, a, v),
            forall|w: TaskId| #[trigger] child_of(ts, a, w) ==> visited@.contains(w) || pending@.contains(w),
            forall|v: TaskId, w: TaskId|
                visited@.contains(v) && #[trigger] child_of(ts, v, w) ==> visited@.contains(w)
                    || pending@.contains(w),
        decreases ids.len() - visited@.len(), pending@.len(),
    {
        proof {
            crate::hierarchy::lemma_bounded_visits(visited@, ids);
        }
        let ghost before_pending = pending@;
        let current = pending.pop().unwrap();
        proof {
            assert(before_pending =~= pending@.push(current));
            assert(before_pending[before_pending.len() - 1] == current);
            assert forall|v: TaskId| before_pending.contains(v) implies (pending@.contains(v) || v == current) by {
                let i = choose|i: int| 0 <= i < before_pending.len() && before_pending[i] == v;
                if i < pending@.len() {
                    assert(pending@[i] == v);
                }
            }
            assert forall|v: TaskId| pending@.contains(v) implies before_pending.contains(v) by {
                let i = choose|i: int| 0 <= i < pending@.len() && pending@[i] == v;
                assert(before_pending[i] == v);
            }
        }
        if crate::hierarchy::contains_id(&visited, current) {
            continue;
        }
        let ghost before_visited = visited@;
        visited.push(current);
        let kids = child_ids(tasks, current);
        let ghost mid_pending = pending@;
        let mut k: usize = 0;
        while k < kids.len()
            invariant
                k <= kids.len(),
                pending@ == mid_pending + kids@.subrange(0, k as int),
            decreases kids.len() - k,
        {
            pending.push(kids[k]);
            assert(pending@ =~= mid_pending + kids@.subrange(0, k + 1));
            k = k + 1;
        }
        proof {
            assert(kids@.subrange(0, kids.len() as int) =~= kids@);
            assert forall|v: TaskId| #[trigger] visited@.contains(v) <==> (v == current || before_visited.contains(v)) by {
                if visited@.contains(v) {
                    let i = choose|i: int| 0 <= i < visited@.len() && visited@[i] == v;
                    if i < before_visited.len() {
                        assert(before_visited[i] == v);
                    }
                }
                if before_visited.contains(v) {
                    let i = choose|i: int| 0 <= i < before_visited.len() && before_visited[i] == v;
                    assert(visited@[i] == v);
                }
                if v == current {
                    assert(visited@[before_visited.len() as int] == v);
                }
            }
            assert forall|v: TaskId| #[trigger] pending@.contains(v) <==> (mid_pending.contains(v) || kids@.contains(v)) by {
                if pending@.contains(v) {
                    let i = choose|i: int| 0 <= i < pending@.len() && pending@[i] == v;
                    if i < mid_pending.len() {
                        assert(mid_pending[i] == v);
                    } else {
                        assert(kids@[i - mid_pending.len()] == v);
                    }
                }
                if mid_pending.contains(v) {
                    let i = choose|i: int| 0 <= i < mid_pending.len() && mid_pending[i] == v;
                    assert(pending@[i] == v);
                }
                if kids@.contains(v) {
                    let i = choose|i: int| 0 <= i < kids@.len() && kids@[i] == v;
                    assert(pending@[mid_pending.len() + i] == v);
                }
            }
            assert(below(ts, a, current));
            assert forall|w: TaskId| kids@.contains(w) implies below(ts, a, w) by {
                lemma_below_extend(ts, a, current, w);
            }
            assert(visited@.no_duplicates()) by {
                assert forall|x: int, y: int|
                    0 <= x < visited@.len() && 0 <= y < visited@.len() && x != y implies visited@[x]
                    != visited@[y] by {
                    if x == before_visited.len() as int {
                        assert(before_visited.contains(before_visited[y]));
                    } else if y == before_visited.len() as int {
                        assert(before_visited.contains(before_visited[x]));
                    }
                }
            }
            assert forall|v: TaskId, w: TaskId|
                visited@.contains(v) && #[trigger] child_of(ts, v, w) implies visited@.contains(w)
                    || pending@.contains(w) by {
                if v == current {
                    assert(kids@.contains(w));
                } else {
                    assert(before_visited.contains(v));
                    assert(before_visited.contains(w) || before_pending.contains(w));
                }
            }
            assert forall|w: TaskId| #[trigger] child_of(ts, a, w) implies visited@.contains(w)
                || pending@.contains(w) by {
                assert(before_visited.contains(w) || before_pending.contains(w));
            }
            assert forall|v: TaskId| visited@.contains(v) implies ids.contains(v) by {
                if v != current {
                    assert(before_visited.contains(v));
                }
            }
            crate::hierarchy::lemma_bounded_visits(visited@, ids);
        }
    }
    proof {
        assert forall|b: TaskId| below(ts, a, b) implies visited@.contains(b) by {
            lemma_below_in_closed(ts, visited@, a, b);
        }
    }
    visited
}

/// Adds to `hidden` every task below a collapsed row of `rows[from..]`.
fn add_hidden(tasks: &Vec<Task>, rows: &Vec<TaskRow>, from: usize, hidden: &mut Vec<TaskId>)
    requires
        from <= rows@.len(),
    ensures
        forall|b: TaskId|
            #[trigger] final(hidden)@.contains(b) <==> (old(hidden)@.contains(b) || exists|k: int|
                from <= k < rows@.len() && #[trigger] rows@[k].collapsed && below(
                    task_views(tasks@),
                    rows@[k].id,
                    b,
                )),
{
    let ghost ts = task_views(tasks@);
    let ghost h0 = hidden@;
    let mut k: usize = from;
    while k < rows.len()
        invariant
            from <= k <= rows.len(),
            ts == task_views(tasks@),
            h0 == old(hidden)@,
            forall|b: TaskId|
                #[trigger] hidden@.contains(b) <==> (h0.contains(b) || exists|m: int|
                    from <= m < k && #[trigger] rows@[m].collapsed && below(ts, rows@[m].id, b)),
        decreases rows.len() - k,
    {
        let ghost hk = hidden@;
        let ghost rk = rows@[k as int];
        if rows[k].collapsed {
            let under = below_ids(tasks, rows[k].id);
            append_ids(hidden, &under);
        }
        proof {
            assert forall|b: TaskId|
                #[trigger] hidden@.contains(b) <==> (h0.contains(b) || exists|q: int|
                    from <= q < k + 1 && #[trigger] rows@[q].collapsed && below(ts, rows@[q].id, b)) by {
                if exists|q: int| from <= q < k + 1 && #[trigger] rows@[q].collapsed && below(ts, rows@[q].id, b) {
                    let q = choose|q: int| from <= q < k + 1 && #[trigger] rows@[q].collapsed && below(ts, rows@[q].id, b);
                    if q < k {
                        assert(hk.contains(b));
                    }
                }
                if hk.contains(b) && !h0.contains(b) {
                    let q = choose|q: int| from <= q < k && #[trigger] rows@[q].collapsed && below(ts, rows@[q].id, b);
                    assert(from <= q < k + 1);
                }
                if rk.collapsed && below(ts, rk.id, b) {
                    assert(rows@[k as int].collapsed);
                }
            }
        }
        k = k + 1;
    }
}

/// Appends `more` to `v`.
fn append_ids(v: &mut Vec<TaskId>, more: &Vec<TaskId>)
    ensures
        forall|b: TaskId| #[trigger] final(v)@.contains(b) <==> (old(v)@.contains(b) || more@.contains(b)),
{
    let ghost v0 = v@;
    let mut m: usize = 0;
    while m < more.len()
        invariant
            m <= more.len(),
            v0 == old(v)@,
            v@ == v0 + more@.subrange(0, m as int),
        decreases more.len() - m,
    {
        v.push(more[m]);
        assert(v@ =~= v0 + more@.subrange(0, m + 1));
        m = m + 1;
    }
    proof {
        assert(more@.subrange(0, more.len() as int) =~= more@);
        assert forall|b: TaskId| #[trigger] v@.contains(b) <==> (v0.contains(b) || more@.contains(b)) by {
            if v@.contains(b) {
                let i = choose|i: int| 0 <= i < v@.len() && v@[i] == b;
                if i < v0.len() {
                    assert(v0[i] == b);
                } else {
                    assert(more@[i - v0.len()] == b);
                }
            }
            if v0.contains(b) {
                let i = choose|i: int| 0 <= i < v0.len() && v0[i] == b;
                assert(v@[i] == b);
            }
            if more@.contains(b) {
                let i = choose|i: int| 0 <= i < more@.len() && more@[i] == b;
                assert(v@[v0.len() + i] == b);
            }
        }
    }
}

/// Splits the tasks hidden under the rows into those under the first
/// `before` rows and those under the rest.
proof fn lemma_hidden_after(ts: Seq<TaskView>, rows: Seq<TaskRow>, before: int, b: TaskId)
    requires
        0 <= before <= rows.len(),
    ensures
        hidden_under(ts, row_views(rows), b) <==> (hidden_under(ts, row_views(rows.subrange(0, before)), b)
            || exists|k: int| before <= k < rows.len() && #[trigger] rows[k].collapsed && below(ts, rows[k].id, b)),
{
    let rs = row_views(rows);
    let r0 = row_views(rows.subrange(0, before));
    if hidden_under(ts, rs, b) {
        let k = choose|k: int| 0 <= k < rs.len() && #[trigger] rs[k].collapsed && below(ts, rs[k].id, b);
        assert(rs[k] == rows[k]@);
        if k < before {
            assert(r0[k] == rows[k]@);
            assert(r0[k].collapsed);
        } else {
            assert(rows[k].collapsed);
        }
    }
    if hidden_under(ts, r0, b) {
        let k = choose|k: int| 0 <= k < r0.len() && #[trigger] r0[k].collapsed && below(ts, r0[k].id, b);
        assert(r0[k] == rows[k]@);
        assert(rs[k] == rows[k]@);
        assert(rs[k].collapsed);
    }
    if exists|k: int| before <= k < rows.len() && #[trigger] rows[k].collapsed && below(ts, rows[k].id, b) {
        let k = choose|k: int| before <= k < rows.len() && #[trigger] rows[k].collapsed && below(ts, rows[k].id, b);
        assert(rs[k] == rows[k]@);
        assert(rs[k].collapsed);
    }
}

/// Whether some row shows task `id`.
fn row_has_id(rows: &Vec<TaskRow>, id: TaskId) -> (r: bool)
    ensures
        r == row_views(rows@).map_values(|v: RowView| v.id).contains(id),
{
    let ghost s = row_views(rows@).map_values(|v: RowView| v.id);
    let mut i: usize = 0;
    while i < rows.len()
        invariant
            i <= rows.len(),
            s == row_views(rows@).map_values(|v: RowView| v.id),
            forall|j: int| 0 <= j < i ==> s[j] != id,
        decreases rows.len() - i,
    {
        assert(s[i as int] == rows@[i as int].id);
        if rows[i].id == id {
            return true;
        }
        i = i + 1;
    }
    false
}

/// Whether some task has id `id`.
fn id_among(tasks: &Vec<Task>, id: TaskId) -> (r: bool)
    ensures
        r == task_ids(task_views(tasks@)).contains(id),
{
    let ghost s = task_ids(task_views(tasks@));
    let mut i: usize = 0;
    while i < tasks.len()
        invariant
            i <= tasks.len(),
            s == task_ids(task_views(tasks@)),
            forall|j: int| 0 <= j < i ==> s[j] != id,
        decreases tasks.len() - i,
    {
        assert(s[i as int] == tasks@[i as int].id);
        if tasks[i].id == id {
            return true;
        }
        i = i + 1;
    }
    false
}

/// Whether task `i` has no parent among the tasks.
fn root_at(tasks: &Vec<Task>, i: usize) -> (r: bool)
    requires
        i < tasks@.len(),
    ensures
        r == is_root(task_views(tasks@), i as int),
{
    let ghost ts = task_views(tasks@);
    let ps = &tasks[i].parent_ids;
    assert(ts[i as int].parent_ids == ps@);
    let mut k: usize = 0;
    while k < ps.len()
        invariant
            k <= ps.len(),
            ts == task_views(tasks@),
            ts[i as int].parent_ids == ps@,
            forall|m: int| 0 <= m < k ==> !task_ids(ts).contains(#[trigger] ps@[m]),
        decreases ps.len() - k,
    {
        if id_among(tasks, ps[k]) {
            assert(task_ids(ts).contains(ts[i as int].parent_ids[k as int]));
            return false;
        }
        k = k + 1;
    }
    true
}

/// The rows of the task list: every root walked in input order, then every
/// task still neither shown nor hidden under a collapsed row walked as a
/// root of its own (see the module's documentation).
#[verifier::rlimit(30)]
pub fn task_rows(
    tasks: &Vec<Task>,
    type_labels: &Vec<(String, String)>,
    user_names: &Vec<(UserId, String)>,
    collapsed: &Vec<TaskId>,
) -> (rows: Vec<TaskRow>)
    ensures
        row_views(rows@) == all_rows(
            task_views(tasks@),
            lookups_of(type_labels@, user_names@, collapsed@),
        ),
{
    let ghost ts = task_views(tasks@);
    let ghost lk = lookups_of(type_labels@, user_names@, collapsed@);
    let mut rows: Vec<TaskRow> = Vec::new();
    assert(row_views(rows@) =~= Seq::<RowView>::empty());
    let mut i: usize = 0;
    while i < tasks.len()
        invariant
            i <= tasks.len(),
            ts == task_views(tasks@),
            lk == lookups_of(type_labels@, user_names@, collapsed@),
            row_views(rows@) + roots_from(ts, lk, i as int) == roots_from(ts, lk, 0),
        decreases tasks.len() - i,
    {
        let ghost r0 = row_views(rows@);
        let is_root_here = root_at(tasks, i);
        if is_root_here {
            visit(tasks, type_labels, user_names, collapsed, i, &mut rows);
        }
        proof {
            assert(roots_from(ts, lk, i as int) == (if is_root(ts, i as int) {
                root_walk(ts, lk, i as int)
            } else {
                Seq::<RowView>::empty()
            }) + roots_from(ts, lk, i + 1));
            assert(row_views(rows@) + roots_from(ts, lk, i + 1) =~= r0 + roots_from(ts, lk, i as int));
        }
        i = i + 1;
    }
    assert(roots_from(ts, lk, i as int) == Seq::<RowView>::empty());
    assert(row_views(rows@) =~= roots_from(ts, lk, 0));
    let ghost first = row_views(rows@);
    let mut hidden: Vec<TaskId> = Vec::new();
    add_hidden(tasks, &rows, 0, &mut hidden);
    proof {
        assert forall|b: TaskId| #[trigger] hidden@.contains(b) <==> hidden_under(ts, row_views(rows@), b) by {
            lemma_hidden_after(ts, rows@, 0, b);
            assert(row_views(rows@.subrange(0, 0)) =~= Seq::<RowView>::empty());
        }
    }
    i = 0;
    while i < tasks.len()
        invariant
            i <= tasks.len(),
            ts == task_views(tasks@),
            lk == lookups_of(type_labels@, user_names@, collapsed@),
            row_views(rows@) + fallback(ts, lk, i as int, row_views(rows@)) == first + fallback(ts, lk, 0, first),
            forall|b: TaskId| #[trigger] hidden@.contains(b) <==> hidden_under(ts, row_views(rows@), b),
        decreases tasks.len() - i,
    {
        let id = tasks[i].id;
        let ghost r0 = row_views(rows@);
        assert(ts[i as int] == tasks@[i as int]@);
        let shown = row_has_id(&rows, id);
        let hid = crate::hierarchy::contains_id(&hidden, id);
        proof {
            assert(seen(ts, r0, ts[i as int].id) == (shown || hid));
            assert(fallback(ts, lk, i as int, r0) == if seen(ts, r0, ts[i as int].id) {
                fallback(ts, lk, i + 1, r0)
            } else {
                root_walk(ts, lk, i as int) + fallback(ts, lk, i + 1, r0 + root_walk(ts, lk, i as int))
            });
        }
        if !shown && !hid {
            let before = rows.len();
            let ghost old_rows = rows@;
            let ghost h0 = hidden@;
            visit(tasks, type_labels, user_names, collapsed, i, &mut rows);
            add_hidden(tasks, &rows, before, &mut hidden);
            proof {
                assert(row_views(rows@.subrange(0, before as int)) =~= r0) by {
                    assert(row_views(rows@) == r0 + root_walk(ts, lk, i as int));
                    assert forall|k: int| 0 <= k < before implies #[trigger] row_views(rows@.subrange(0, before as int))[k] == r0[k] by {
                        assert(row_views(rows@)[k] == rows@[k]@);
                    }
                }
                assert forall|b: TaskId| #[trigger] hidden@.contains(b) <==> hidden_under(ts, row_views(rows@), b) by {
                    lemma_hidden_after(ts, rows@, before as int, b);
                    assert(h0.contains(b) <==> hidden_under(ts, r0, b));
                }
                assert(row_views(rows@) + fallback(ts, lk, i + 1, row_views(rows@)) =~= r0 + fallback(ts, lk, i as int, r0));
            }
        }
        i = i + 1;
    }
    assert(fallback(ts, lk, i as int, row_views(rows@)) == Seq::<RowView>::empty());
    assert(row_views(rows@) =~= first + fallback(ts, lk, 0, first));
    rows
}

} // verus!
