//! The in-memory store: users, task rows, parent edges and task types.
//!
//! Parent edges form one list in insertion order. The children of a parent
//! are its edges in list order (their sibling order); the parents of a task
//! are its edges in list order too. A top-level task has a single edge whose
//! parent is `None`. Task rows are stored without `parent_ids` (those are read
//! back from the edges) and without progress (the library computes it).

use vstd::prelude::*;

use crate::ids::{TaskId, UserId};
use crate::model::{
    copy_ids, filter_admits, unset_progress, Parents, Placement, Task, TaskType, TaskTypeView,
    TaskView, TreeFilter, User, UserView,
};
use crate::text::same_text;

verus! {

/// One parent edge: `child` sits under `parent` (`None` = the top level).
#[derive(Clone, Copy, PartialEq, Eq, Structural, Debug)]
pub struct Edge {
    pub parent: Option<TaskId>,
    pub child: TaskId,
}

/// The store's contents.
#[verifier::ext_equal]
pub struct StoreView {
    pub users: Seq<UserView>,
    pub tasks: Seq<TaskView>,
    pub edges: Seq<Edge>,
    pub types: Seq<TaskTypeView>,
}

// ---------------------------------------------------------------------------
// Lookups by key (the last row with the key; keys are kept unique).
// ---------------------------------------------------------------------------

pub open spec fn task_index(rows: Seq<TaskView>, id: TaskId) -> int
    decreases rows.len(),
{
    if rows.len() == 0 {
        -1
    } else if rows.last().id == id {
        rows.len() - 1
    } else {
        task_index(rows.drop_last(), id)
    }
}

pub open spec fn user_index(rows: Seq<UserView>, id: UserId) -> int
    decreases rows.len(),
{
    if rows.len() == 0 {
        -1
    } else if rows.last().id == id {
        rows.len() - 1
    } else {
        user_index(rows.drop_last(), id)
    }
}

pub open spec fn type_index(rows: Seq<TaskTypeView>, key: Seq<char>) -> int
    decreases rows.len(),
{
    if rows.len() == 0 {
        -1
    } else if rows.last().key == key {
        rows.len() - 1
    } else {
        type_index(rows.drop_last(), key)
    }
}

pub open spec fn task_row(rows: Seq<TaskView>, id: TaskId) -> Option<TaskView> {
    if task_index(rows, id) >= 0 {
        Some(rows[task_index(rows, id)])
    } else {
        None
    }
}

pub open spec fn user_row(rows: Seq<UserView>, id: UserId) -> Option<UserView> {
    if user_index(rows, id) >= 0 {
        Some(rows[user_index(rows, id)])
    } else {
        None
    }
}

pub open spec fn type_row(rows: Seq<TaskTypeView>, key: Seq<char>) -> Option<TaskTypeView> {
    if type_index(rows, key) >= 0 {
        Some(rows[type_index(rows, key)])
    } else {
        None
    }
}

pub proof fn lemma_task_index_bounds(rows: Seq<TaskView>, id: TaskId)
    ensures
        -1 <= task_index(rows, id) < rows.len(),
        task_index(rows, id) >= 0 ==> rows[task_index(rows, id)].id == id,
        task_index(rows, id) < 0 ==> forall|j: int| 0 <= j < rows.len() ==> rows[j].id != id,
    decreases rows.len(),
{
    if rows.len() > 0 && rows.last().id != id {
        lemma_task_index_bounds(rows.drop_last(), id);
        if task_index(rows, id) < 0 {
            assert forall|j: int| 0 <= j < rows.len() implies rows[j].id != id by {
                if j < rows.len() - 1 {
                    assert(rows.drop_last()[j] == rows[j]);
                }
            }
        }
    }
}

/// No row after the found one has `id`.
pub proof fn lemma_task_index_last(rows: Seq<TaskView>, id: TaskId)
    ensures
        forall|k: int| task_index(rows, id) < k < rows.len() ==> #[trigger] rows[k].id != id,
    decreases rows.len(),
{
    lemma_task_index_bounds(rows, id);
    if rows.len() > 0 && rows.last().id != id {
        lemma_task_index_last(rows.drop_last(), id);
        assert forall|k: int| task_index(rows, id) < k < rows.len() implies #[trigger] rows[k].id
            != id by {
            if k < rows.len() - 1 {
                assert(rows.drop_last()[k] == rows[k]);
            }
        }
    }
}

/// `j` is the last row with `id`.
pub proof fn lemma_task_index_is(rows: Seq<TaskView>, id: TaskId, j: int)
    requires
        0 <= j < rows.len(),
        rows[j].id == id,
        forall|k: int| j < k < rows.len() ==> #[trigger] rows[k].id != id,
    ensures
        task_index(rows, id) == j,
    decreases rows.len(),
{
    if j < rows.len() - 1 {
        assert(rows.last().id != id);
        assert forall|k: int| j < k < rows.drop_last().len() implies #[trigger] rows.drop_last()[k].id
            != id by {
            assert(rows.drop_last()[k] == rows[k]);
        }
        lemma_task_index_is(rows.drop_last(), id, j);
    }
}

/// No row has `id`.
pub proof fn lemma_task_index_none(rows: Seq<TaskView>, id: TaskId)
    requires
        forall|k: int| 0 <= k < rows.len() ==> #[trigger] rows[k].id != id,
    ensures
        task_index(rows, id) == -1,
    decreases rows.len(),
{
    if rows.len() > 0 {
        assert(rows.last().id != id);
        assert forall|k: int| 0 <= k < rows.drop_last().len() implies #[trigger] rows.drop_last()[k].id
            != id by {
            assert(rows.drop_last()[k] == rows[k]);
        }
        lemma_task_index_none(rows.drop_last(), id);
    }
}

/// After an upsert the row with `t.id` is `t`, and every other id finds
/// what it found before.
pub proof fn lemma_upsert_task(rows: Seq<TaskView>, t: TaskView, x: TaskId)
    ensures
        task_row(upsert_task(rows, t), t.id) == Some(t),
        x != t.id ==> task_row(upsert_task(rows, t), x) == task_row(rows, x),
{
    let after = upsert_task(rows, t);
    let i = task_index(rows, t.id);
    lemma_task_index_bounds(rows, t.id);
    lemma_task_index_bounds(rows, x);
    if i >= 0 {
        lemma_task_index_last(rows, t.id);
        assert forall|k: int| i < k < after.len() implies #[trigger] after[k].id != t.id by {
            assert(rows[k].id != t.id);
        }
        lemma_task_index_is(after, t.id, i);
    } else {
        lemma_task_index_is(after, t.id, rows.len() as int);
    }
    if x != t.id {
        let j = task_index(rows, x);
        if j >= 0 {
            lemma_task_index_last(rows, x);
            assert forall|k: int| j < k < after.len() implies #[trigger] after[k].id != x by {
                if k < rows.len() {
                    assert(rows[k].id != x);
                }
            }
            lemma_task_index_is(after, x, j);
        } else {
            assert forall|k: int| 0 <= k < after.len() implies #[trigger] after[k].id != x by {
                if k < rows.len() {
                    assert(rows[k].id != x);
                }
            }
            lemma_task_index_none(after, x);
        }
    }
}

pub proof fn lemma_user_index_bounds(rows: Seq<UserView>, id: UserId)
    ensures
        -1 <= user_index(rows, id) < rows.len(),
        user_index(rows, id) >= 0 ==> rows[user_index(rows, id)].id == id,
        user_index(rows, id) < 0 ==> forall|j: int| 0 <= j < rows.len() ==> rows[j].id != id,
    decreases rows.len(),
{
    if rows.len() > 0 && rows.last().id != id {
        lemma_user_index_bounds(rows.drop_last(), id);
        if user_index(rows, id) < 0 {
            assert forall|j: int| 0 <= j < rows.len() implies rows[j].id != id by {
                if j < rows.len() - 1 {
                    assert(rows.drop_last()[j] == rows[j]);
                }
            }
        }
    }
}

pub proof fn lemma_type_index_bounds(rows: Seq<TaskTypeView>, key: Seq<char>)
    ensures
        -1 <= type_index(rows, key) < rows.len(),
        type_index(rows, key) >= 0 ==> rows[type_index(rows, key)].key == key,
        type_index(rows, key) < 0 ==> forall|j: int| 0 <= j < rows.len() ==> rows[j].key != key,
    decreases rows.len(),
{
    if rows.len() > 0 && rows.last().key != key {
        lemma_type_index_bounds(rows.drop_last(), key);
        if type_index(rows, key) < 0 {
            assert forall|j: int| 0 <= j < rows.len() implies rows[j].key != key by {
                if j < rows.len() - 1 {
                    assert(rows.drop_last()[j] == rows[j]);
                }
            }
        }
    }
}

/// After an upsert the type with `t.key` is `t`.
pub proof fn lemma_upsert_type_found(rows: Seq<TaskTypeView>, t: TaskTypeView)
    ensures
        type_row(upsert_type(rows, t), t.key) == Some(t),
    decreases rows.len(),
{
    let after = upsert_type(rows, t);
    lemma_type_index_bounds(rows, t.key);
    let i = type_index(rows, t.key);
    if i >= 0 {
        lemma_type_index_last(rows, t.key);
        lemma_type_index_is(after, t.key, i);
    } else {
        lemma_type_index_is(after, t.key, rows.len() as int);
    }
}

proof fn lemma_type_index_last(rows: Seq<TaskTypeView>, key: Seq<char>)
    ensures
        forall|k: int| type_index(rows, key) < k < rows.len() ==> #[trigger] rows[k].key != key,
    decreases rows.len(),
{
    lemma_type_index_bounds(rows, key);
    if rows.len() > 0 && rows.last().key != key {
        lemma_type_index_last(rows.drop_last(), key);
        assert forall|k: int| type_index(rows, key) < k < rows.len() implies #[trigger] rows[k].key
            != key by {
            if k < rows.len() - 1 {
                assert(rows.drop_last()[k] == rows[k]);
            }
        }
    }
}

proof fn lemma_type_index_is(rows: Seq<TaskTypeView>, key: Seq<char>, j: int)
    requires
        0 <= j < rows.len(),
        rows[j].key == key,
        forall|k: int| j < k < rows.len() ==> #[trigger] rows[k].key != key,
    ensures
        type_index(rows, key) == j,
    decreases rows.len(),
{
    if j < rows.len() - 1 {
        assert(rows.last().key != key);
        assert forall|k: int| j < k < rows.drop_last().len() implies #[trigger] rows.drop_last()[k].key
            != key by {
            assert(rows.drop_last()[k] == rows[k]);
        }
        lemma_type_index_is(rows.drop_last(), key, j);
    }
}

/// Inserts or replaces the row with `t`'s id.
pub open spec fn upsert_task(rows: Seq<TaskView>, t: TaskView) -> Seq<TaskView> {
    if task_index(rows, t.id) >= 0 {
        rows.update(task_index(rows, t.id), t)
    } else {
        rows.push(t)
    }
}

pub open spec fn upsert_user(rows: Seq<UserView>, u: UserView) -> Seq<UserView> {
    if user_index(rows, u.id) >= 0 {
        rows.update(user_index(rows, u.id), u)
    } else {
        rows.push(u)
    }
}

pub open spec fn upsert_type(rows: Seq<TaskTypeView>, t: TaskTypeView) -> Seq<TaskTypeView> {
    if type_index(rows, t.key) >= 0 {
        rows.update(type_index(rows, t.key), t)
    } else {
        rows.push(t)
    }
}

// ---------------------------------------------------------------------------
// Edges.
// ---------------------------------------------------------------------------

/// `es` without the edges whose parent is one of `s`.
pub open spec fn cut_edges(es: Seq<Edge>, s: Set<TaskId>) -> Seq<Edge>
    decreases es.len(),
{
    if es.len() == 0 {
        seq![]
    } else if es.last().parent matches Some(p) && s.contains(p) {
        cut_edges(es.drop_last(), s)
    } else {
        cut_edges(es.drop_last(), s).push(es.last())
    }
}

pub proof fn lemma_cut_edges(es: Seq<Edge>, s: Set<TaskId>, e: Edge)
    ensures
        cut_edges(es, s).contains(e) <==> (es.contains(e) && !(e.parent matches Some(p)
            && s.contains(p))),
        es.no_duplicates() ==> cut_edges(es, s).no_duplicates(),
    decreases es.len(),
{
    if es.len() > 0 {
        lemma_cut_edges(es.drop_last(), s, e);
        lemma_contains_drop_last(es, e);
        let rest = cut_edges(es.drop_last(), s);
        if !(es.last().parent matches Some(p) && s.contains(p)) {
            lemma_contains_push(rest, es.last(), e);
            if es.no_duplicates() {
                lemma_cut_edges(es.drop_last(), s, es.last());
                assert(!es.drop_last().contains(es.last())) by {
                    if es.drop_last().contains(es.last()) {
                        let i = choose|i: int|
                            0 <= i < es.drop_last().len() && es.drop_last()[i] == es.last();
                        assert(es[i] == es[es.len() - 1]);
                    }
                }
                assert(es.drop_last().no_duplicates());
                lemma_no_dup_push(rest, es.last());
            }
        } else {
            if es.no_duplicates() {
                assert(es.drop_last().no_duplicates());
            }
        }
    }
}

/// Whether the edge `parent -> child` exists.
pub open spec fn edge_in(es: Seq<Edge>, parent: Option<TaskId>, child: TaskId) -> bool {
    es.contains(Edge { parent, child })
}

/// `parent`'s children in sibling order.
pub open spec fn children_in(es: Seq<Edge>, parent: Option<TaskId>) -> Seq<TaskId>
    decreases es.len(),
{
    if es.len() == 0 {
        seq![]
    } else if es.last().parent == parent {
        children_in(es.drop_last(), parent).push(es.last().child)
    } else {
        children_in(es.drop_last(), parent)
    }
}

/// `child`'s real (non-top-level) parents, in edge order.
pub open spec fn parents_in(es: Seq<Edge>, child: TaskId) -> Seq<TaskId>
    decreases es.len(),
{
    if es.len() == 0 {
        seq![]
    } else if es.last().child == child && es.last().parent is Some {
        parents_in(es.drop_last(), child).push(es.last().parent->0)
    } else {
        parents_in(es.drop_last(), child)
    }
}

/// The parents a `Parents` value asks for, `None` standing for the top level.
pub open spec fn wanted_parents(p: Parents) -> Seq<Option<TaskId>> {
    match p {
        Parents::TopLevel => seq![None],
        Parents::Under(ids) => ids@.map_values(|id: TaskId| Some(id)),
    }
}

/// `es` without `child`'s edges to parents outside `wanted`.
pub open spec fn prune(es: Seq<Edge>, child: TaskId, wanted: Seq<Option<TaskId>>) -> Seq<Edge>
    decreases es.len(),
{
    if es.len() == 0 {
        seq![]
    } else if es.last().child == child && !wanted.contains(es.last().parent) {
        prune(es.drop_last(), child, wanted)
    } else {
        prune(es.drop_last(), child, wanted).push(es.last())
    }
}

/// Adds the edge `w -> child` when missing: right after the edge
/// `w -> sibling` for `Placement::After(sibling)` (sibling other than the
/// child) when that edge exists, at the end otherwise.
pub open spec fn insert_edge(es: Seq<Edge>, w: Option<TaskId>, child: TaskId, pl: Placement) -> Seq<
    Edge,
> {
    let e = Edge { parent: w, child };
    if es.contains(e) {
        es
    } else {
        match pl {
            Placement::After(s) => {
                if s != child && es.contains(Edge { parent: w, child: s }) {
                    es.insert(es.index_of(Edge { parent: w, child: s }) + 1, e)
                } else {
                    es.push(e)
                }
            },
            Placement::End => es.push(e),
        }
    }
}

/// Adds the edges from `child` to each of `ws`, in order.
pub open spec fn add_edges(es: Seq<Edge>, child: TaskId, ws: Seq<Option<TaskId>>, pl: Placement) -> Seq<
    Edge,
>
    decreases ws.len(),
{
    if ws.len() == 0 {
        es
    } else {
        insert_edge(add_edges(es, child, ws.drop_last(), pl), ws.last(), child, pl)
    }
}

/// The edges after `child`'s whole parent set is replaced by `parents`.
pub open spec fn replaced_edges(es: Seq<Edge>, child: TaskId, parents: Parents, pl: Placement) -> Seq<
    Edge,
> {
    let ws = wanted_parents(parents);
    add_edges(prune(es, child, ws), child, ws, pl)
}

pub proof fn lemma_children_in_contains(es: Seq<Edge>, parent: Option<TaskId>, x: TaskId)
    ensures
        children_in(es, parent).contains(x) <==> edge_in(es, parent, x),
    decreases es.len(),
{
    if es.len() > 0 {
        lemma_children_in_contains(es.drop_last(), parent, x);
        lemma_contains_drop_last(es, Edge { parent, child: x });
        if es.last().parent == parent {
            lemma_contains_push(children_in(es.drop_last(), parent), es.last().child, x);
        }
    }
}

pub proof fn lemma_parents_in_contains(es: Seq<Edge>, child: TaskId, p: TaskId)
    ensures
        parents_in(es, child).contains(p) <==> edge_in(es, Some(p), child),
    decreases es.len(),
{
    if es.len() > 0 {
        lemma_parents_in_contains(es.drop_last(), child, p);
        lemma_contains_drop_last(es, Edge { parent: Some(p), child });
        if es.last().child == child && es.last().parent is Some {
            lemma_contains_push(parents_in(es.drop_last(), child), es.last().parent->0, p);
        }
    }
}

pub proof fn lemma_map_push<A, B>(s: Seq<A>, a: A, f: spec_fn(A) -> B)
    ensures
        s.push(a).map_values(f) == s.map_values(f).push(f(a)),
{
    assert(s.push(a).map_values(f) =~= s.map_values(f).push(f(a)));
}

proof fn lemma_index_of_unique<A>(s: Seq<A>, i: int, a: A)
    requires
        s.no_duplicates(),
        0 <= i < s.len(),
        s[i] == a,
    ensures
        s.index_of(a) == i,
{
    assert(s.contains(a));
    let j = s.index_of(a);
    assert(0 <= j < s.len() && s[j] == a);
}

proof fn lemma_contains_push<A>(s: Seq<A>, a: A, x: A)
    ensures
        s.push(a).contains(x) <==> (s.contains(x) || x == a),
{
    if s.push(a).contains(x) {
        let i = choose|i: int| 0 <= i < s.push(a).len() && s.push(a)[i] == x;
        if i < s.len() {
            assert(s[i] == x);
        }
    }
    if s.contains(x) {
        let i = choose|i: int| 0 <= i < s.len() && s[i] == x;
        assert(s.push(a)[i] == x);
    }
    if x == a {
        assert(s.push(a)[s.len() as int] == x);
    }
}

proof fn lemma_contains_drop_last<A>(s: Seq<A>, x: A)
    requires
        s.len() > 0,
    ensures
        s.contains(x) <==> (s.drop_last().contains(x) || x == s.last()),
{
    assert(s == s.drop_last().push(s.last()));
    lemma_contains_push(s.drop_last(), s.last(), x);
}

pub proof fn lemma_prune(es: Seq<Edge>, child: TaskId, wanted: Seq<Option<TaskId>>, e: Edge)
    ensures
        prune(es, child, wanted).contains(e) <==> (es.contains(e) && !(e.child == child
            && !wanted.contains(e.parent))),
        es.no_duplicates() ==> prune(es, child, wanted).no_duplicates(),
    decreases es.len(),
{
    if es.len() > 0 {
        lemma_prune(es.drop_last(), child, wanted, e);
        lemma_contains_drop_last(es, e);
        let rest = prune(es.drop_last(), child, wanted);
        if !(es.last().child == child && !wanted.contains(es.last().parent)) {
            lemma_contains_push(rest, es.last(), e);
            if es.no_duplicates() {
                lemma_prune(es.drop_last(), child, wanted, es.last());
                assert(!es.drop_last().contains(es.last())) by {
                    if es.drop_last().contains(es.last()) {
                        let i = choose|i: int|
                            0 <= i < es.drop_last().len() && es.drop_last()[i] == es.last();
                        assert(es[i] == es[es.len() - 1]);
                    }
                }
                assert(rest.no_duplicates()) by {
                    assert(es.drop_last().no_duplicates());
                }
                assert(!rest.contains(es.last()));
                assert forall|i: int, j: int|
                    0 <= i < rest.push(es.last()).len() && 0 <= j < rest.push(es.last()).len()
                        && i != j implies rest.push(es.last())[i] != rest.push(es.last())[j] by {
                    if i < rest.len() && j < rest.len() {
                    } else if i < rest.len() {
                        assert(rest.contains(rest[i]));
                    } else if j < rest.len() {
                        assert(rest.contains(rest[j]));
                    }
                }
            }
        } else {
            if es.no_duplicates() {
                assert(es.drop_last().no_duplicates());
            }
        }
    }
}

proof fn lemma_no_dup_push<A>(s: Seq<A>, a: A)
    requires
        s.no_duplicates(),
        !s.contains(a),
    ensures
        s.push(a).no_duplicates(),
{
    assert forall|i: int, j: int|
        0 <= i < s.push(a).len() && 0 <= j < s.push(a).len() && i != j implies s.push(a)[i] != s.push(
        a,
    )[j] by {
        if i < s.len() && j < s.len() {
        } else if i < s.len() {
            assert(s.contains(s[i]));
        } else if j < s.len() {
            assert(s.contains(s[j]));
        }
    }
}

proof fn lemma_insert_contains<A>(s: Seq<A>, k: int, a: A, x: A)
    requires
        0 <= k <= s.len(),
    ensures
        s.insert(k, a).contains(x) <==> (s.contains(x) || x == a),
        s.no_duplicates() && !s.contains(a) ==> s.insert(k, a).no_duplicates(),
{
    let t = s.insert(k, a);
    assert(t.len() == s.len() + 1);
    if t.contains(x) {
        let i = choose|i: int| 0 <= i < t.len() && t[i] == x;
        if i < k {
            assert(s[i] == x);
        } else if i > k {
            assert(s[i - 1] == x);
        }
    }
    if s.contains(x) {
        let i = choose|i: int| 0 <= i < s.len() && s[i] == x;
        if i < k {
            assert(t[i] == x);
        } else {
            assert(t[i + 1] == x);
        }
    }
    if x == a {
        assert(t[k] == x);
    }
    if s.no_duplicates() && !s.contains(a) {
        assert forall|i: int, j: int| 0 <= i < t.len() && 0 <= j < t.len() && i != j implies t[i]
            != t[j] by {
            let si = if i < k {
                i
            } else {
                i - 1
            };
            let sj = if j < k {
                j
            } else {
                j - 1
            };
            if i != k && j != k {
                assert(t[i] == s[si]);
                assert(t[j] == s[sj]);
            } else if i == k {
                assert(t[j] == s[sj]);
                assert(s.contains(s[sj]));
            } else {
                assert(t[i] == s[si]);
                assert(s.contains(s[si]));
            }
        }
    }
}

pub proof fn lemma_insert_edge(es: Seq<Edge>, w: Option<TaskId>, child: TaskId, pl: Placement, e: Edge)
    ensures
        insert_edge(es, w, child, pl).contains(e) <==> (es.contains(e) || e == Edge {
            parent: w,
            child,
        }),
        es.no_duplicates() ==> insert_edge(es, w, child, pl).no_duplicates(),
{
    let ne = Edge { parent: w, child };
    if !es.contains(ne) {
        match pl {
            Placement::After(s) => {
                let se = Edge { parent: w, child: s };
                if s != child && es.contains(se) {
                    let k = es.index_of(se);
                    lemma_insert_contains(es, k + 1, ne, e);
                } else {
                    lemma_contains_push(es, ne, e);
                    if es.no_duplicates() {
                        lemma_no_dup_push(es, ne);
                    }
                }
            },
            Placement::End => {
                lemma_contains_push(es, ne, e);
                if es.no_duplicates() {
                    lemma_no_dup_push(es, ne);
                }
            },
        }
    }
}

pub proof fn lemma_add_edges(
    es: Seq<Edge>,
    child: TaskId,
    ws: Seq<Option<TaskId>>,
    pl: Placement,
    e: Edge,
)
    ensures
        add_edges(es, child, ws, pl).contains(e) <==> (es.contains(e) || (e.child == child
            && ws.contains(e.parent))),
        es.no_duplicates() ==> add_edges(es, child, ws, pl).no_duplicates(),
    decreases ws.len(),
{
    if ws.len() > 0 {
        lemma_add_edges(es, child, ws.drop_last(), pl, e);
        let prev = add_edges(es, child, ws.drop_last(), pl);
        lemma_insert_edge(prev, ws.last(), child, pl, e);
        lemma_contains_drop_last(ws, e.parent);
    }
}

/// The edge set after replacing `child`'s parents: every other task keeps
/// its edges, and `child` sits exactly under the wanted parents.
pub proof fn lemma_replaced_edges(
    es: Seq<Edge>,
    child: TaskId,
    parents: Parents,
    pl: Placement,
    e: Edge,
)
    ensures
        replaced_edges(es, child, parents, pl).contains(e) <==> ((e.child != child
            && es.contains(e)) || (e.child == child && wanted_parents(parents).contains(
            e.parent,
        ))),
        es.no_duplicates() ==> replaced_edges(es, child, parents, pl).no_duplicates(),
{
    let ws = wanted_parents(parents);
    lemma_prune(es, child, ws, e);
    lemma_add_edges(prune(es, child, ws), child, ws, pl, e);
    if es.no_duplicates() {
        lemma_prune(es, child, ws, e);
        lemma_add_edges(prune(es, child, ws), child, ws, pl, e);
    }
}

/// A task row as the store keeps it: no parent ids, progress not computed.
pub open spec fn stored_row(t: TaskView) -> TaskView {
    TaskView { parent_ids: seq![], progress: unset_progress(), ..t }
}

/// A stored row as it is read back: parent ids from the edges.
pub open spec fn read_row(t: TaskView, es: Seq<Edge>) -> TaskView {
    TaskView { parent_ids: parents_in(es, t.id), ..t }
}

/// The rows `filter` admits, in store order, as read back.
pub open spec fn listed(rows: Seq<TaskView>, es: Seq<Edge>, f: TreeFilter) -> Seq<TaskView>
    decreases rows.len(),
{
    if rows.len() == 0 {
        seq![]
    } else if filter_admits(f, rows.last()) {
        listed(rows.drop_last(), es, f).push(read_row(rows.last(), es))
    } else {
        listed(rows.drop_last(), es, f)
    }
}

/// What a live-task lookup finds.
pub open spec fn live_task(v: StoreView, id: TaskId) -> Option<TaskView> {
    match task_row(v.tasks, id) {
        Some(t) => if t.deleted_at is None {
            Some(read_row(t, v.edges))
        } else {
            None
        },
        None => None,
    }
}

/// What a lookup including soft-deleted tasks finds.
pub open spec fn any_task(v: StoreView, id: TaskId) -> Option<TaskView> {
    match task_row(v.tasks, id) {
        Some(t) => Some(read_row(t, v.edges)),
        None => None,
    }
}

/// Whether some row or edge already names `id`.
pub open spec fn id_in_use(v: StoreView, id: TaskId) -> bool {
    ||| task_index(v.tasks, id) >= 0
    ||| exists|i: int|
        0 <= i < v.edges.len() && (#[trigger] v.edges[i].child == id || v.edges[i].parent == Some(
            id,
        ))
}

/// No two type rows share a key.
pub open spec fn type_keys_unique(rows: Seq<TaskTypeView>) -> bool {
    forall|i: int, j: int|
        #![trigger rows[i], rows[j]]
        0 <= i < rows.len() && 0 <= j < rows.len() && rows[i].key == rows[j].key ==> i == j
}

/// What every store keeps: each parent edge once, each type key once.
pub open spec fn store_valid(v: StoreView) -> bool {
    &&& v.edges.no_duplicates()
    &&& type_keys_unique(v.types)
}

/// Upserting a type keeps the keys unique.
pub proof fn lemma_upsert_type_unique(rows: Seq<TaskTypeView>, t: TaskTypeView)
    requires
        type_keys_unique(rows),
    ensures
        type_keys_unique(upsert_type(rows, t)),
{
    let after = upsert_type(rows, t);
    lemma_type_index_bounds(rows, t.key);
    let k = type_index(rows, t.key);
    assert forall|i: int, j: int|
        #![trigger after[i], after[j]]
        0 <= i < after.len() && 0 <= j < after.len() && after[i].key == after[j].key implies i == j by {
        if k >= 0 {
            if i != k && j != k {
                assert(after[i] == rows[i] && after[j] == rows[j]);
            } else if i == k && j != k {
                assert(after[j] == rows[j]);
                assert(rows[k].key == t.key);
                assert(rows[j].key == rows[k].key);
            } else if j == k && i != k {
                assert(after[i] == rows[i]);
                assert(rows[i].key == rows[k].key);
            }
        } else {
            if i < rows.len() && j < rows.len() {
                assert(after[i] == rows[i] && after[j] == rows[j]);
            } else if i < rows.len() {
                assert(after[i] == rows[i]);
                assert(rows[i].key != t.key);
            } else if j < rows.len() {
                assert(after[j] == rows[j]);
                assert(rows[j].key != t.key);
            }
        }
    }
}

/// In-memory backend for the `Core` facade; also what persistence loads into
/// and saves from.
pub struct InMemoryStore {
    users: Vec<User>,
    tasks: Vec<Task>,
    edges: Vec<Edge>,
    types: Vec<TaskType>,
}

impl View for InMemoryStore {
    type V = StoreView;

    closed spec fn view(&self) -> StoreView {
        StoreView {
            users: self.users@.map_values(|u: User| u@),
            tasks: self.tasks@.map_values(|t: Task| t@),
            edges: self.edges@,
            types: self.types@.map_values(|t: TaskType| t@),
        }
    }
}

impl Default for InMemoryStore {
    fn default() -> (s: Self)
        ensures
            s@.users.len() == 0,
            s@.tasks.len() == 0,
            s@.edges.len() == 0,
            s@.types.len() == 0,
    {
        InMemoryStore::new()
    }
}

fn find_id(v: &Vec<TaskId>, id: TaskId) -> (r: bool)
    ensures
        r == v@.contains(id),
{
    let mut i: usize = 0;
    while i < v.len()
        invariant
            i <= v.len(),
            forall|j: int| 0 <= j < i ==> v@[j] != id,
        decreases v.len() - i,
    {
        if v[i] == id {
            assert(v@[i as int] == id);
            return true;
        }
        i = i + 1;
    }
    false
}

impl InMemoryStore {
    /// The store never holds the same edge twice.
    #[verifier::type_invariant]
    pub open spec fn inv(&self) -> bool {
        store_valid(self@)
    }


    /// A separate store holding the same contents.
    pub fn duplicate(&self) -> (s: Self)
        ensures
            s@ == self@,
    {
        proof {
            use_type_invariant(self);
        }
        let mut users: Vec<User> = Vec::new();
        let mut i: usize = 0;
        while i < self.users.len()
            invariant
                i <= self.users.len(),
                users@.map_values(|u: User| u@) == self.users@.subrange(0, i as int).map_values(|u: User| u@),
            decreases self.users.len() - i,
        {
            let ghost before = users@;
            let u = self.users[i].duplicate();
            users.push(u);
            proof {
                lemma_map_push(before, u, |u: User| u@);
                lemma_map_push(self.users@.subrange(0, i as int), self.users@[i as int], |u: User| u@);
                assert(self.users@.subrange(0, i + 1) =~= self.users@.subrange(0, i as int).push(self.users@[i as int]));
            }
            i = i + 1;
        }
        let mut tasks: Vec<Task> = Vec::new();
        let mut j: usize = 0;
        while j < self.tasks.len()
            invariant
                j <= self.tasks.len(),
                tasks@.map_values(|t: Task| t@) == self.tasks@.subrange(0, j as int).map_values(|t: Task| t@),
            decreases self.tasks.len() - j,
        {
            let ghost before = tasks@;
            let t = self.tasks[j].duplicate();
            tasks.push(t);
            proof {
                lemma_map_push(before, t, |t: Task| t@);
                lemma_map_push(self.tasks@.subrange(0, j as int), self.tasks@[j as int], |t: Task| t@);
                assert(self.tasks@.subrange(0, j + 1) =~= self.tasks@.subrange(0, j as int).push(self.tasks@[j as int]));
            }
            j = j + 1;
        }
        let mut edges: Vec<Edge> = Vec::new();
        let mut k: usize = 0;
        while k < self.edges.len()
            invariant
                k <= self.edges.len(),
                edges@ == self.edges@.subrange(0, k as int),
            decreases self.edges.len() - k,
        {
            edges.push(self.edges[k]);
            assert(edges@ =~= self.edges@.subrange(0, k + 1));
            k = k + 1;
        }
        let mut types: Vec<TaskType> = Vec::new();
        let mut m: usize = 0;
        while m < self.types.len()
            invariant
                m <= self.types.len(),
                types@.map_values(|t: TaskType| t@) == self.types@.subrange(0, m as int).map_values(|t: TaskType| t@),
            decreases self.types.len() - m,
        {
            let ghost before = types@;
            let t = self.types[m].duplicate();
            types.push(t);
            proof {
                lemma_map_push(before, t, |t: TaskType| t@);
                lemma_map_push(self.types@.subrange(0, m as int), self.types@[m as int], |t: TaskType| t@);
                assert(self.types@.subrange(0, m + 1) =~= self.types@.subrange(0, m as int).push(self.types@[m as int]));
            }
            m = m + 1;
        }
        assert(self.users@.subrange(0, self.users.len() as int) =~= self.users@);
        assert(self.tasks@.subrange(0, self.tasks.len() as int) =~= self.tasks@);
        assert(self.edges@.subrange(0, self.edges.len() as int) =~= self.edges@);
        assert(self.types@.subrange(0, self.types.len() as int) =~= self.types@);
        InMemoryStore { users, tasks, edges, types }
    }

    pub fn new() -> (s: Self)
        ensures
            s@.users.len() == 0,
            s@.tasks.len() == 0,
            s@.edges.len() == 0,
            s@.types.len() == 0,
    {
        let s = InMemoryStore {
            users: Vec::new(),
            tasks: Vec::new(),
            edges: Vec::new(),
            types: Vec::new(),
        };
        assert(s@.users =~= Seq::<UserView>::empty());
        assert(s@.tasks =~= Seq::<TaskView>::empty());
        assert(s@.types =~= Seq::<TaskTypeView>::empty());
        s
    }

    fn task_pos(&self, id: TaskId) -> (r: Option<usize>)
        ensures
            r is Some <==> task_index(self@.tasks, id) >= 0,
            r matches Some(i) ==> i == task_index(self@.tasks, id) && i < self.tasks.len(),
    {
        let mut i = self.tasks.len();
        assert(self@.tasks.subrange(0, i as int) == self@.tasks);
        while i > 0
            invariant
                i <= self.tasks.len(),
                task_index(self@.tasks, id) == task_index(self@.tasks.subrange(0, i as int), id),
            decreases i,
        {
            let ghost sub = self@.tasks.subrange(0, i as int);
            assert(sub.last() == self@.tasks[i - 1]);
            assert(sub.drop_last() == self@.tasks.subrange(0, i - 1));
            if self.tasks[i - 1].id == id {
                return Some(i - 1);
            }
            i = i - 1;
        }
        None
    }

    fn user_pos(&self, id: UserId) -> (r: Option<usize>)
        ensures
            r is Some <==> user_index(self@.users, id) >= 0,
            r matches Some(i) ==> i == user_index(self@.users, id) && i < self.users.len(),
    {
        let mut i = self.users.len();
        assert(self@.users.subrange(0, i as int) == self@.users);
        while i > 0
            invariant
                i <= self.users.len(),
                user_index(self@.users, id) == user_index(self@.users.subrange(0, i as int), id),
            decreases i,
        {
            let ghost sub = self@.users.subrange(0, i as int);
            assert(sub.last() == self@.users[i - 1]);
            assert(sub.drop_last() == self@.users.subrange(0, i - 1));
            if self.users[i - 1].id == id {
                return Some(i - 1);
            }
            i = i - 1;
        }
        None
    }

    fn type_pos(&self, key: &str) -> (r: Option<usize>)
        ensures
            r is Some <==> type_index(self@.types, key@) >= 0,
            r matches Some(i) ==> i == type_index(self@.types, key@) && i < self.types.len(),
    {
        let mut i = self.types.len();
        assert(self@.types.subrange(0, i as int) == self@.types);
        while i > 0
            invariant
                i <= self.types.len(),
                type_index(self@.types, key@) == type_index(
                    self@.types.subrange(0, i as int),
                    key@,
                ),
            decreases i,
        {
            let ghost sub = self@.types.subrange(0, i as int);
            assert(sub.last() == self@.types[i - 1]);
            assert(sub.drop_last() == self@.types.subrange(0, i - 1));
            if same_text(self.types[i - 1].key.as_str(), key) {
                return Some(i - 1);
            }
            i = i - 1;
        }
        None
    }

    /// Looks a user up by id.
    pub fn get_user(&self, id: UserId) -> (r: Option<User>)
        ensures
            match r {
                Some(u) => user_row(self@.users, id) == Some(u@),
                None => user_row(self@.users, id) is None,
            },
    {
        match self.user_pos(id) {
            Some(i) => Some(self.users[i].duplicate()),
            None => None,
        }
    }

    /// Inserts or replaces the user with `user.id`.
    pub fn put_user(&mut self, user: &User)
        ensures
            final(self)@ == (StoreView { users: upsert_user(old(self)@.users, user@), ..old(self)@ }),
    {
        let u = user.duplicate();
        let pos = self.user_pos(user.id);
        proof {
            use_type_invariant(&*self);
        }
        let mut rows = Vec::new();
        std::mem::swap(&mut rows, &mut self.users);
        match pos {
            Some(i) => {
                rows.set(i, u);
            },
            None => {
                rows.push(u);
            },
        }
        self.users = rows;
        assert(self@.users =~= upsert_user(old(self)@.users, user@));
    }

    /// Every user, in insertion order.
    pub fn list_users(&self) -> (r: Vec<User>)
        ensures
            r@.map_values(|u: User| u@) == self@.users,
    {
        let mut r: Vec<User> = Vec::new();
        let mut i: usize = 0;
        while i < self.users.len()
            invariant
                i <= self.users.len(),
                r@.map_values(|u: User| u@) == self@.users.subrange(0, i as int),
            decreases self.users.len() - i,
        {
            let ghost before = r@;
            let d = self.users[i].duplicate();
            r.push(d);
            proof {
                lemma_map_push(before, d, |u: User| u@);
                assert(self@.users.subrange(0, i + 1) == self@.users.subrange(0, i as int).push(
                    self@.users[i as int],
                ));
            }
            i = i + 1;
        }
        assert(self@.users.subrange(0, self.users.len() as int) =~= self@.users);
        r
    }

    /// Parent ids of `id` (real parents only), in edge order.
    pub fn list_parent_edges(&self, id: TaskId) -> (r: Vec<TaskId>)
        ensures
            r@ == parents_in(self@.edges, id),
    {
        let mut r: Vec<TaskId> = Vec::new();
        let mut i: usize = 0;
        while i < self.edges.len()
            invariant
                i <= self.edges.len(),
                r@ == parents_in(self@.edges.subrange(0, i as int), id),
            decreases self.edges.len() - i,
        {
            let e = self.edges[i];
            let ghost sub = self@.edges.subrange(0, i + 1);
            assert(sub.drop_last() == self@.edges.subrange(0, i as int));
            assert(sub.last() == e);
            if e.child == id {
                if let Some(p) = e.parent {
                    r.push(p);
                }
            }
            i = i + 1;
        }
        assert(self@.edges.subrange(0, self.edges.len() as int) == self@.edges);
        r
    }

    /// Children of `parent` (`None` = the top level) in sibling order,
    /// soft-deleted ones included.
    pub fn list_child_edges(&self, parent: Option<TaskId>) -> (r: Vec<TaskId>)
        ensures
            r@ == children_in(self@.edges, parent),
    {
        let mut r: Vec<TaskId> = Vec::new();
        let mut i: usize = 0;
        while i < self.edges.len()
            invariant
                i <= self.edges.len(),
                r@ == children_in(self@.edges.subrange(0, i as int), parent),
            decreases self.edges.len() - i,
        {
            let e = self.edges[i];
            let ghost sub = self@.edges.subrange(0, i + 1);
            assert(sub.drop_last() == self@.edges.subrange(0, i as int));
            assert(sub.last() == e);
            if e.parent == parent {
                r.push(e.child);
            }
            i = i + 1;
        }
        assert(self@.edges.subrange(0, self.edges.len() as int) == self@.edges);
        r
    }

    /// Every `(parent, child)` edge, in edge order (so each parent's children
    /// come in sibling order).
    pub fn list_all_child_edges(&self) -> (r: Vec<(Option<TaskId>, TaskId)>)
        ensures
            r@.len() == self@.edges.len(),
            forall|i: int|
                0 <= i < r@.len() ==> #[trigger] r@[i] == (self@.edges[i].parent, self@.edges[i].child),
    {
        let mut r: Vec<(Option<TaskId>, TaskId)> = Vec::new();
        let mut i: usize = 0;
        while i < self.edges.len()
            invariant
                i <= self.edges.len(),
                r@.len() == i,
                forall|j: int|
                    0 <= j < i ==> #[trigger] r@[j] == (self@.edges[j].parent, self@.edges[j].child),
            decreases self.edges.len() - i,
        {
            let e = self.edges[i];
            r.push((e.parent, e.child));
            i = i + 1;
        }
        r
    }

    /// Whether some task row or parent edge already names `id`.
    pub fn task_id_in_use(&self, id: TaskId) -> (r: bool)
        ensures
            r == id_in_use(self@, id),
    {
        if self.task_pos(id).is_some() {
            return true;
        }
        let mut i: usize = 0;
        while i < self.edges.len()
            invariant
                i <= self.edges.len(),
                forall|j: int|
                    0 <= j < i ==> self@.edges[j].child != id && self@.edges[j].parent != Some(id),
            decreases self.edges.len() - i,
        {
            let e = self.edges[i];
            if e.child == id || e.parent == Some(id) {
                assert(self@.edges[i as int] == e);
                return true;
            }
            i = i + 1;
        }
        false
    }

    /// Drops every edge whose parent is one of `parents`.
    pub fn remove_edges_under(&mut self, parents: &Vec<TaskId>)
        ensures
            final(self)@ == (StoreView { edges: cut_edges(old(self)@.edges, parents@.to_set()), ..old(self)@ }),
    {
        proof {
            use_type_invariant(&*self);
        }
        let ghost s = parents@.to_set();
        let mut kept: Vec<Edge> = Vec::new();
        let mut i: usize = 0;
        while i < self.edges.len()
            invariant
                i <= self.edges.len(),
                kept@ == cut_edges(self@.edges.subrange(0, i as int), s),
                s == parents@.to_set(),
            decreases self.edges.len() - i,
        {
            let e = self.edges[i];
            let ghost sub = self@.edges.subrange(0, i + 1);
            assert(sub.drop_last() == self@.edges.subrange(0, i as int));
            assert(sub.last() == e);
            let cut = match e.parent {
                Some(p) => find_id(parents, p),
                None => false,
            };
            if !cut {
                kept.push(e);
            }
            i = i + 1;
        }
        assert(self@.edges.subrange(0, self.edges.len() as int) == self@.edges);
        proof {
            lemma_cut_edges(self@.edges, s, Edge { parent: None, child: TaskId { value: 0 } });
        }
        self.edges = kept;
    }

    /// Appends the edge `parent -> child` when it is missing (used when
    /// loading a saved store, edges in sibling order).
    pub fn append_edge(&mut self, parent: Option<TaskId>, child: TaskId)
        ensures
            final(self)@ == (StoreView {
                edges: if old(self)@.edges.contains(Edge { parent, child }) {
                    old(self)@.edges
                } else {
                    old(self)@.edges.push(Edge { parent, child })
                },
                ..old(self)@
            }),
    {
        proof {
            use_type_invariant(&*self);
        }
        let e = Edge { parent, child };
        if edge_pos(&self.edges, e).is_some() {
            return ;
        }
        proof {
            lemma_no_dup_push(self@.edges, e);
        }
        let mut es = Vec::new();
        std::mem::swap(&mut es, &mut self.edges);
        es.push(e);
        self.edges = es;
    }

    /// Looks a live (not soft-deleted) task up by id, with its parent ids.
    pub fn get_task(&self, id: TaskId) -> (r: Option<Task>)
        ensures
            match r {
                Some(t) => live_task(self@, id) == Some(t@),
                None => live_task(self@, id) is None,
            },
    {
        match self.task_pos(id) {
            Some(i) => {
                if self.tasks[i].deleted_at.is_some() {
                    None
                } else {
                    let mut t = self.tasks[i].duplicate();
                    t.parent_ids = self.list_parent_edges(id);
                    proof {
                        lemma_task_index_bounds(self@.tasks, id);
                    }
                    assert(t@ == read_row(self@.tasks[i as int], self@.edges));
                    Some(t)
                }
            },
            None => None,
        }
    }

    /// Looks a task up by id, soft-deleted or not, with its parent ids.
    pub fn get_task_including_deleted(&self, id: TaskId) -> (r: Option<Task>)
        ensures
            match r {
                Some(t) => any_task(self@, id) == Some(t@),
                None => any_task(self@, id) is None,
            },
    {
        match self.task_pos(id) {
            Some(i) => {
                let mut t = self.tasks[i].duplicate();
                t.parent_ids = self.list_parent_edges(id);
                proof {
                    lemma_task_index_bounds(self@.tasks, id);
                }
                assert(t@ == read_row(self@.tasks[i as int], self@.edges));
                Some(t)
            },
            None => None,
        }
    }

    /// Inserts or replaces the row with `task.id`. `parent_ids` is not
    /// stored (edges are written separately) and progress is not stored.
    pub fn put_task(&mut self, task: &Task)
        ensures
            final(self)@ == (StoreView {
                tasks: upsert_task(old(self)@.tasks, stored_row(task@)),
                ..old(self)@
            }),
    {
        let mut t = task.duplicate();
        t.parent_ids = Vec::new();
        t.progress = crate::model::Progress { complete: 0, total: 1 };
        assert(t@ == stored_row(task@));
        let pos = self.task_pos(task.id);
        proof {
            use_type_invariant(&*self);
        }
        let mut rows = Vec::new();
        std::mem::swap(&mut rows, &mut self.tasks);
        match pos {
            Some(i) => {
                rows.set(i, t);
            },
            None => {
                rows.push(t);
            },
        }
        self.tasks = rows;
        assert(self@.tasks =~= upsert_task(old(self)@.tasks, stored_row(task@)));
    }

    /// The tasks `filter` admits, in store order, with their parent ids.
    pub fn list_tasks(&self, filter: &TreeFilter) -> (r: Vec<Task>)
        ensures
            r@.map_values(|t: Task| t@) == listed(self@.tasks, self@.edges, *filter),
    {
        let mut r: Vec<Task> = Vec::new();
        let mut i: usize = 0;
        while i < self.tasks.len()
            invariant
                i <= self.tasks.len(),
                r@.map_values(|t: Task| t@) == listed(
                    self@.tasks.subrange(0, i as int),
                    self@.edges,
                    *filter,
                ),
            decreases self.tasks.len() - i,
        {
            let ghost sub = self@.tasks.subrange(0, i + 1);
            assert(sub.drop_last() == self@.tasks.subrange(0, i as int));
            assert(sub.last() == self.tasks[i as int]@);
            if admits(filter, &self.tasks[i]) {
                let mut t = self.tasks[i].duplicate();
                t.parent_ids = self.list_parent_edges(t.id);
                r.push(t);
                assert(r@.map_values(|t: Task| t@) =~= listed(sub, self@.edges, *filter));
            }
            i = i + 1;
        }
        assert(self@.tasks.subrange(0, self.tasks.len() as int) == self@.tasks);
        r
    }

    /// Replaces `child`'s whole parent set with `parents`: edges to parents
    /// outside the set are removed, kept edges keep their place, and each
    /// missing one is added per `placement` (at the end of that parent's
    /// children by default). `TopLevel` is the single `None` edge.
    pub fn replace_parent_edges(&mut self, child: TaskId, parents: &Parents, placement: Placement)
        ensures
            final(self)@ == (StoreView {
                edges: replaced_edges(old(self)@.edges, child, *parents, placement),
                ..old(self)@
            }),
            forall|p: Option<TaskId>, x: TaskId|
                edge_in(final(self)@.edges, p, x) <==> ((x != child && edge_in(
                    old(self)@.edges,
                    p,
                    x,
                )) || (x == child && wanted_parents(*parents).contains(p))),
            store_valid(old(self)@),
            store_valid(final(self)@),
    {
        proof {
            use_type_invariant(&*self);
        }
        let wanted: Vec<Option<TaskId>> = match parents {
            Parents::TopLevel => {
                let mut w = Vec::new();
                w.push(None);
                assert(w@ =~= wanted_parents(*parents));
                w
            },
            Parents::Under(ids) => {
                let mut w: Vec<Option<TaskId>> = Vec::new();
                let mut i: usize = 0;
                while i < ids.len()
                    invariant
                        i <= ids.len(),
                        w@ == ids@.subrange(0, i as int).map_values(|id: TaskId| Some(id)),
                    decreases ids.len() - i,
                {
                    w.push(Some(ids[i]));
                    assert(w@ =~= ids@.subrange(0, i + 1).map_values(|id: TaskId| Some(id)));
                    i = i + 1;
                }
                assert(ids@.subrange(0, ids.len() as int) == ids@);
                w
            },
        };
        let ghost ws = wanted@;
        assert(ws == wanted_parents(*parents));
        // Drop the edges to parents outside the wanted set.
        let mut kept: Vec<Edge> = Vec::new();
        let mut i: usize = 0;
        while i < self.edges.len()
            invariant
                i <= self.edges.len(),
                self.edges@ == old(self).edges@,
                kept@ == prune(self@.edges.subrange(0, i as int), child, ws),
                wanted@ == ws,
            decreases self.edges.len() - i,
        {
            let e = self.edges[i];
            let ghost sub = self@.edges.subrange(0, i + 1);
            assert(sub.drop_last() == self@.edges.subrange(0, i as int));
            assert(sub.last() == e);
            let dropped = e.child == child && !contains_parent(&wanted, e.parent);
            if !dropped {
                kept.push(e);
            }
            i = i + 1;
        }
        assert(self@.edges.subrange(0, self.edges.len() as int) == self@.edges);
        proof {
            lemma_prune(old(self)@.edges, child, ws, Edge { parent: None, child });
            assert(ws.subrange(0, 0) == Seq::<Option<TaskId>>::empty());
        }
        // Add the missing ones, in the order asked for.
        let mut k: usize = 0;
        while k < wanted.len()
            invariant
                k <= wanted.len(),
                wanted@ == ws,
                kept@ == add_edges(
                    prune(old(self)@.edges, child, ws),
                    child,
                    ws.subrange(0, k as int),
                    placement,
                ),
                kept@.no_duplicates(),
            decreases wanted.len() - k,
        {
            let w = wanted[k];
            let ghost sub = ws.subrange(0, k + 1);
            assert(sub.drop_last() == ws.subrange(0, k as int));
            assert(sub.last() == w);
            insert_edge_exec(&mut kept, w, child, placement);
            proof {
                lemma_insert_edge(
                    add_edges(prune(old(self)@.edges, child, ws), child, sub.drop_last(), placement),
                    w,
                    child,
                    placement,
                    Edge { parent: w, child },
                );
            }
            k = k + 1;
        }
        assert(ws.subrange(0, wanted.len() as int) == ws);
        proof {
            assert forall|e: Edge|
                #![auto]
                kept@.contains(e) <==> ((e.child != child && old(self)@.edges.contains(e)) || (
                e.child == child && ws.contains(e.parent))) by {
                lemma_replaced_edges(old(self)@.edges, child, *parents, placement, e);
            }
            lemma_replaced_edges(
                old(self)@.edges,
                child,
                *parents,
                placement,
                Edge { parent: None, child },
            );
        }
        self.edges = kept;
        assert forall|p: Option<TaskId>, x: TaskId|
            edge_in(self@.edges, p, x) <==> ((x != child && edge_in(old(self)@.edges, p, x)) || (
            x == child && wanted_parents(*parents).contains(p))) by {
            lemma_replaced_edges(
                old(self)@.edges,
                child,
                *parents,
                placement,
                Edge { parent: p, child: x },
            );
        }
        proof {
            use_type_invariant(&*self);
        }
    }

    /// Swaps the places of `a` and `b` among `parent`'s children; nothing
    /// changes unless both are children of `parent`.
    pub fn swap_child_positions(&mut self, parent: Option<TaskId>, a: TaskId, b: TaskId)
        ensures
            (edge_in(old(self)@.edges, parent, a) && edge_in(old(self)@.edges, parent, b))
                ==> final(self)@ == (StoreView {
                edges: old(self)@.edges.update(
                    old(self)@.edges.index_of(Edge { parent, child: a }),
                    Edge { parent, child: b },
                ).update(
                    old(self)@.edges.index_of(Edge { parent, child: b }),
                    Edge { parent, child: a },
                ),
                ..old(self)@
            }),
            !(edge_in(old(self)@.edges, parent, a) && edge_in(old(self)@.edges, parent, b))
                ==> final(self)@ == old(self)@,
    {
        proof {
            use_type_invariant(&*self);
        }
        let ea = Edge { parent, child: a };
        let eb = Edge { parent, child: b };
        let ia = edge_pos(&self.edges, ea);
        let ib = edge_pos(&self.edges, eb);
        match (ia, ib) {
            (Some(i), Some(j)) => {
                let ghost es0 = self@.edges;
                let mut es: Vec<Edge> = Vec::new();
                std::mem::swap(&mut es, &mut self.edges);
                es.set(i, eb);
                es.set(j, ea);
                assert(es@ == es0.update(i as int, eb).update(j as int, ea));
                proof {
                    let t = es@;
                    assert forall|x: int, y: int|
                        0 <= x < t.len() && 0 <= y < t.len() && x != y implies t[x] != t[y] by {
                        if a == b {
                            assert(i == j);
                        }
                    }
                }
                self.edges = es;
            },
            _ => {},
        }
    }

    /// Every configured task type, in insertion order.
    pub fn get_task_types(&self) -> (r: Vec<TaskType>)
        ensures
            r@.map_values(|t: TaskType| t@) == self@.types,
    {
        let mut r: Vec<TaskType> = Vec::new();
        let mut i: usize = 0;
        while i < self.types.len()
            invariant
                i <= self.types.len(),
                r@.map_values(|t: TaskType| t@) == self@.types.subrange(0, i as int),
            decreases self.types.len() - i,
        {
            let ghost before = r@;
            let d = self.types[i].duplicate();
            r.push(d);
            proof {
                lemma_map_push(before, d, |t: TaskType| t@);
                assert(self@.types.subrange(0, i + 1) == self@.types.subrange(0, i as int).push(
                    self@.types[i as int],
                ));
            }
            i = i + 1;
        }
        assert(self@.types.subrange(0, self.types.len() as int) =~= self@.types);
        r
    }

    /// Whether a task type with `key` is configured.
    pub fn has_task_type(&self, key: &str) -> (r: bool)
        ensures
            r == type_row(self@.types, key@) is Some,
    {
        self.type_pos(key).is_some()
    }

    /// The task type with `key`, if configured.
    pub fn get_task_type(&self, key: &str) -> (r: Option<TaskType>)
        ensures
            match r {
                Some(t) => type_row(self@.types, key@) == Some(t@),
                None => type_row(self@.types, key@) is None,
            },
    {
        match self.type_pos(key) {
            Some(i) => Some(self.types[i].duplicate()),
            None => None,
        }
    }

    /// Inserts or replaces the task type with `t.key`.
    pub fn put_task_type(&mut self, t: &TaskType)
        ensures
            final(self)@ == (StoreView { types: upsert_type(old(self)@.types, t@), ..old(self)@ }),
    {
        let d = t.duplicate();
        let pos = self.type_pos(t.key.as_str());
        proof {
            use_type_invariant(&*self);
        }
        let mut rows = Vec::new();
        std::mem::swap(&mut rows, &mut self.types);
        match pos {
            Some(i) => {
                rows.set(i, d);
            },
            None => {
                rows.push(d);
            },
        }
        proof {
            lemma_upsert_type_unique(old(self)@.types, t@);
            assert(rows@.map_values(|t: TaskType| t@) =~= upsert_type(old(self)@.types, t@));
        }
        self.types = rows;
        assert(self@.types =~= upsert_type(old(self)@.types, t@));
    }
}

/// Whether `t` passes `f`.
pub fn admits(f: &TreeFilter, t: &Task) -> (r: bool)
    ensures
        r == filter_admits(*f, t@),
{
    let type_ok = match &f.type_key {
        Some(k) => same_text(t.type_key.as_str(), k.as_str()),
        None => true,
    };
    let status_ok = match f.status {
        Some(s) => t.status == s,
        None => true,
    };
    let assignee_ok = match f.assignee_id {
        Some(a) => t.assignee_id == Some(a),
        None => true,
    };
    let deleted_ok = f.include_deleted || t.deleted_at.is_none();
    type_ok && status_ok && assignee_ok && deleted_ok
}

fn contains_parent(v: &Vec<Option<TaskId>>, p: Option<TaskId>) -> (r: bool)
    ensures
        r == v@.contains(p),
{
    let mut i: usize = 0;
    while i < v.len()
        invariant
            i <= v.len(),
            forall|j: int| 0 <= j < i ==> v@[j] != p,
        decreases v.len() - i,
    {
        if v[i] == p {
            assert(v@[i as int] == p);
            return true;
        }
        i = i + 1;
    }
    false
}

fn edge_pos(v: &Vec<Edge>, e: Edge) -> (r: Option<usize>)
    ensures
        r is Some <==> v@.contains(e),
        r matches Some(i) ==> i < v.len() && v@[i as int] == e,
        r matches Some(i) ==> (v@.no_duplicates() ==> i == v@.index_of(e)),
{
    let mut i: usize = 0;
    while i < v.len()
        invariant
            i <= v.len(),
            forall|j: int| 0 <= j < i ==> v@[j] != e,
        decreases v.len() - i,
    {
        if v[i] == e {
            assert(v@[i as int] == e);
            proof {
                if v@.no_duplicates() {
                    lemma_index_of_unique(v@, i as int, e);
                }
            }
            return Some(i);
        }
        i = i + 1;
    }
    None
}

fn insert_edge_exec(es: &mut Vec<Edge>, w: Option<TaskId>, child: TaskId, pl: Placement)
    requires
        old(es)@.no_duplicates(),
    ensures
        final(es)@ == insert_edge(old(es)@, w, child, pl),
{
    let e = Edge { parent: w, child };
    if edge_pos(es, e).is_some() {
        return ;
    }
    match pl {
        Placement::After(s) => {
            if s != child {
                if let Some(k) = edge_pos(es, Edge { parent: w, child: s }) {
                    es.insert(k + 1, e);
                    return ;
                }
            }
            es.push(e);
        },
        Placement::End => {
            es.push(e);
        },
    }
}

} // verus!
