//! The hierarchy invariant over the parent-edge graph: no task is its own
//! ancestor.
//!
//! `check_new_parent` rejects attaching `child` under `parent` exactly when
//! `child` is `parent` itself or one of its ancestors, walking upward with an
//! explicit work stack and a visited list (a shared ancestor reached along two
//! paths is walked once). `replace_parents` is the one place parent sets of
//! existing tasks are rewritten; it checks every newly added parent first.

use vstd::prelude::*;
use vstd::set_lib::*;

use crate::error::CoreError;
use crate::ids::TaskId;
use crate::model::{parents_ids, Parents, Placement};
use crate::store::{
    edge_in, lemma_parents_in_contains, lemma_replaced_edges, parents_in, replaced_edges,
    wanted_parents, InMemoryStore, StoreView,
};

verus! {

/// `b` is a parent of `a`.
pub open spec fn up_step(es: Seq<crate::store::Edge>, a: TaskId, b: TaskId) -> bool {
    edge_in(es, Some(b), a)
}

/// Step `i` of `path` goes from a task to one of its parents.
pub open spec fn step_ok(es: Seq<crate::store::Edge>, path: Seq<TaskId>, i: int) -> bool {
    up_step(es, path[i], path[i + 1])
}

/// A walk upward through parents.
pub open spec fn is_up_path(es: Seq<crate::store::Edge>, path: Seq<TaskId>) -> bool {
    &&& path.len() >= 1
    &&& forall|i: int| 0 <= i < path.len() - 1 ==> #[trigger] step_ok(es, path, i)
}

/// `b` is `a` itself or one of its ancestors.
pub open spec fn reaches(es: Seq<crate::store::Edge>, a: TaskId, b: TaskId) -> bool {
    exists|path: Seq<TaskId>| #[trigger] is_up_path(es, path) && path[0] == a && path.last() == b
}

/// No task is its own ancestor: no upward walk of one step or more returns to
/// where it started.
pub open spec fn acyclic(es: Seq<crate::store::Edge>) -> bool {
    forall|path: Seq<TaskId>|
        #[trigger] is_up_path(es, path) && path.len() >= 2 ==> path[0] != path.last()
}

/// The first of `ids` that is not yet a parent of `child` and would make
/// `child` its own ancestor.
pub open spec fn first_cycle(es: Seq<crate::store::Edge>, child: TaskId, ids: Seq<TaskId>) -> Option<
    TaskId,
>
    decreases ids.len(),
{
    if ids.len() == 0 {
        None
    } else {
        match first_cycle(es, child, ids.drop_last()) {
            Some(p) => Some(p),
            None => if !edge_in(es, Some(ids.last()), child) && reaches(es, ids.last(), child) {
                Some(ids.last())
            } else {
                None
            },
        }
    }
}

pub proof fn lemma_reaches_refl(es: Seq<crate::store::Edge>, a: TaskId)
    ensures
        reaches(es, a, a),
{
    let path = seq![a];
    assert(is_up_path(es, path));
    assert(path[0] == a && path.last() == a);
}

pub proof fn lemma_reaches_step(es: Seq<crate::store::Edge>, a: TaskId, v: TaskId, p: TaskId)
    requires
        reaches(es, a, v),
        edge_in(es, Some(p), v),
    ensures
        reaches(es, a, p),
{
    let path = choose|path: Seq<TaskId>| is_up_path(es, path) && path[0] == a && path.last() == v;
    let np = path.push(p);
    assert forall|i: int| 0 <= i < np.len() - 1 implies #[trigger] step_ok(es, np, i) by {
        if i < path.len() - 1 {
            assert(step_ok(es, path, i));
        }
    }
    assert(is_up_path(es, np));
    assert(np[0] == a && np.last() == p);
}

/// Whatever a set closed under "parent of" contains, it contains every
/// ancestor of.
pub proof fn lemma_closed_contains_reached(
    es: Seq<crate::store::Edge>,
    visited: Seq<TaskId>,
    a: TaskId,
    b: TaskId,
)
    requires
        visited.contains(a),
        forall|v: TaskId, p: TaskId|
            visited.contains(v) && #[trigger] edge_in(es, Some(p), v) ==> visited.contains(p),
        reaches(es, a, b),
    ensures
        visited.contains(b),
{
    let path = choose|path: Seq<TaskId>| is_up_path(es, path) && path[0] == a && path.last() == b;
    lemma_path_in_closed(es, visited, path, path.len() - 1);
}

proof fn lemma_path_in_closed(
    es: Seq<crate::store::Edge>,
    visited: Seq<TaskId>,
    path: Seq<TaskId>,
    i: int,
)
    requires
        is_up_path(es, path),
        0 <= i < path.len(),
        visited.contains(path[0]),
        forall|v: TaskId, p: TaskId|
            visited.contains(v) && #[trigger] edge_in(es, Some(p), v) ==> visited.contains(p),
    ensures
        visited.contains(path[i]),
    decreases i,
{
    if i > 0 {
        lemma_path_in_closed(es, visited, path, i - 1);
        assert(step_ok(es, path, i - 1));
    }
}

pub fn contains_id(v: &Vec<TaskId>, id: TaskId) -> (r: bool)
    ensures
        r == v@.contains(id),
{
    let mut i: usize = 0;
    while i < v.len()
        invariant
            i <= v.len(),
            forall|j: int| 0 <= j < i ==> v@[j] != id,
        decreases v.len() - i,
    {
        if v[i] == id {
            assert(v@[i as int] == id);
            return true;
        }
        i = i + 1;
    }
    false
}

/// Every task an upward walk from `parent` can meet: `parent` and every
/// parent named by an edge.
spec fn universe(es: Seq<crate::store::Edge>, parent: TaskId) -> Seq<TaskId> {
    es.map_values(
        |e: crate::store::Edge|
            match e.parent {
                Some(p) => p,
                None => parent,
            },
    ).push(parent)
}

proof fn lemma_in_universe(es: Seq<crate::store::Edge>, parent: TaskId, v: TaskId, p: TaskId)
    requires
        edge_in(es, Some(p), v),
    ensures
        universe(es, parent).contains(p),
{
    let e = crate::store::Edge { parent: Some(p), child: v };
    let i = choose|i: int| 0 <= i < es.len() && es[i] == e;
    assert(universe(es, parent)[i] == p);
}

pub proof fn lemma_bounded_visits(visited: Seq<TaskId>, u: Seq<TaskId>)
    requires
        visited.no_duplicates(),
        forall|v: TaskId| visited.contains(v) ==> u.contains(v),
    ensures
        visited.len() <= u.len(),
{
    broadcast use vstd::seq_lib::seq_to_set_is_finite;

    visited.unique_seq_to_set();
    u.lemma_cardinality_of_set();
    assert(visited.to_set().subset_of(u.to_set()));
    lemma_len_subset(visited.to_set(), u.to_set());
}

/// Checks that attaching `child` under `parent` would not make `child` its
/// own ancestor.
pub fn check_new_parent(store: &InMemoryStore, parent: TaskId, child: TaskId) -> (r: Result<
    (),
    CoreError,
>)
    ensures
        r is Err <==> reaches(store@.edges, parent, child),
        r matches Err(e) ==> e == (CoreError::CircularHierarchy {
            task: child,
            attempted_parent: parent,
        }),
{
    let ghost es = store@.edges;
    let ghost u = universe(es, parent);
    let mut visited: Vec<TaskId> = Vec::new();
    let mut pending: Vec<TaskId> = Vec::new();
    pending.push(parent);
    proof {
        lemma_reaches_refl(es, parent);
        assert(pending@[0] == parent);
        assert(u[u.len() - 1] == parent);
    }
    while pending.len() > 0
        invariant
            es == store@.edges,
            u == universe(es, parent),
            visited@.no_duplicates(),
            forall|v: TaskId| visited@.contains(v) ==> u.contains(v),
            forall|v: TaskId| pending@.contains(v) ==> u.contains(v),
            forall|v: TaskId|
                visited@.contains(v) || pending@.contains(v) ==> reaches(es, parent, v),
            forall|v: TaskId, p: TaskId|
                visited@.contains(v) && #[trigger] edge_in(es, Some(p), v) ==> visited@.contains(p)
                    || pending@.contains(p),
            !visited@.contains(child),
            visited@.contains(parent) || pending@.contains(parent),
        decreases u.len() - visited@.len(), pending@.len(),
    {
        proof {
            lemma_bounded_visits(visited@, u);
        }
        let ghost before_pending = pending@;
        let current = pending.pop().unwrap();
        assert(before_pending == pending@.push(current));
        assert(before_pending.contains(current)) by {
            assert(before_pending[before_pending.len() - 1] == current);
        }
        assert forall|v: TaskId| pending@.contains(v) implies before_pending.contains(v) by {
            let i = choose|i: int| 0 <= i < pending@.len() && pending@[i] == v;
            assert(before_pending[i] == v);
        }
        if contains_id(&visited, current) {
            assert forall|v: TaskId| before_pending.contains(v) implies visited@.contains(v)
                || pending@.contains(v) by {
                let i = choose|i: int| 0 <= i < before_pending.len() && before_pending[i] == v;
                if i < pending@.len() {
                    assert(pending@[i] == v);
                }
            }
            assert(visited@.contains(parent) || pending@.contains(parent));
            continue;
        }
        if current == child {
            return Err(CoreError::CircularHierarchy { task: child, attempted_parent: parent });
        }
        let ghost before_visited = visited@;
        visited.push(current);
        proof {
            assert(before_visited.len() + 1 <= u.len()) by {
                assert forall|v: TaskId| visited@.contains(v) implies u.contains(v) by {
                    if v != current {
                        let i = choose|i: int| 0 <= i < visited@.len() && visited@[i] == v;
                        assert(before_visited[i] == v);
                    }
                }
                assert forall|i: int, j: int|
                    0 <= i < visited@.len() && 0 <= j < visited@.len() && i != j implies visited@[i]
                    != visited@[j] by {
                    if i == before_visited.len() as int {
                        assert(before_visited.contains(before_visited[j]));
                    } else if j == before_visited.len() as int {
                        assert(before_visited.contains(before_visited[i]));
                    }
                }
                lemma_bounded_visits(visited@, u);
            }
        }
        let parents = store.list_parent_edges(current);
        let ghost mid_pending = pending@;
        let mut k: usize = 0;
        while k < parents.len()
            invariant
                k <= parents.len(),
                parents@ == parents_in(es, current),
                es == store@.edges,
                pending@ == mid_pending + parents@.subrange(0, k as int),
                reaches(es, parent, current),
            decreases parents.len() - k,
        {
            pending.push(parents[k]);
            assert(pending@ =~= mid_pending + parents@.subrange(0, k + 1));
            k = k + 1;
        }
        assert(parents@.subrange(0, parents.len() as int) == parents@);
        proof {
            assert forall|v: TaskId| visited@.contains(v) implies v == current
                || before_visited.contains(v) by {
                let i = choose|i: int| 0 <= i < visited@.len() && visited@[i] == v;
                if i < before_visited.len() {
                    assert(before_visited[i] == v);
                }
            }
            assert forall|v: TaskId| pending@.contains(v) implies (mid_pending.contains(v)
                || parents@.contains(v)) by {
                let i = choose|i: int| 0 <= i < pending@.len() && pending@[i] == v;
                if i < mid_pending.len() {
                    assert(mid_pending[i] == v);
                } else {
                    assert(parents@[i - mid_pending.len()] == v);
                }
            }
            assert forall|v: TaskId| mid_pending.contains(v) implies pending@.contains(v) by {
                let i = choose|i: int| 0 <= i < mid_pending.len() && mid_pending[i] == v;
                assert(pending@[i] == v);
            }
            assert forall|v: TaskId| parents@.contains(v) implies pending@.contains(v) by {
                let i = choose|i: int| 0 <= i < parents@.len() && parents@[i] == v;
                assert(pending@[mid_pending.len() + i] == v);
            }
            assert forall|v: TaskId| before_visited.contains(v) implies visited@.contains(v) by {
                let i = choose|i: int| 0 <= i < before_visited.len() && before_visited[i] == v;
                assert(visited@[i] == v);
            }
            assert(visited@[visited@.len() - 1] == current);
            assert(visited@.contains(current));
            if parent != current {
                assert(before_visited.contains(parent) || before_pending.contains(parent));
                if before_pending.contains(parent) {
                    let i = choose|i: int| 0 <= i < before_pending.len() && before_pending[i] == parent;
                    assert(i < mid_pending.len());
                    assert(mid_pending[i] == parent);
                    assert(mid_pending.contains(parent));
                    assert(pending@.contains(parent));
                } else {
                    assert(visited@.contains(parent));
                }
            }
            assert forall|p: TaskId| parents@.contains(p) implies edge_in(es, Some(p), current) by {
                lemma_parents_in_contains(es, current, p);
            }
            assert forall|v: TaskId| pending@.contains(v) implies u.contains(v) by {
                if parents@.contains(v) {
                    lemma_in_universe(es, parent, current, v);
                }
            }
            assert forall|v: TaskId|
                visited@.contains(v) || pending@.contains(v) implies reaches(es, parent, v) by {
                if parents@.contains(v) && !mid_pending.contains(v) && !before_visited.contains(
                    v,
                ) {
                    lemma_reaches_step(es, parent, current, v);
                }
            }
            assert forall|v: TaskId, p: TaskId|
                visited@.contains(v) && #[trigger] edge_in(es, Some(p), v) implies visited@.contains(
                p,
            ) || pending@.contains(p) by {
                if v == current {
                    lemma_parents_in_contains(es, current, p);
                } else {
                    assert(before_visited.contains(v));
                    assert(before_visited.contains(p) || before_pending.contains(p));
                    if p == current {
                        assert(visited@.contains(p));
                    } else if before_visited.contains(p) {
                        assert(visited@.contains(p));
                    } else {
                        let i = choose|i: int| 0 <= i < before_pending.len() && before_pending[i] == p;
                        assert(i < mid_pending.len());
                        assert(mid_pending[i] == p);
                        assert(mid_pending.contains(p));
                        assert(pending@.contains(p));
                    }
                }
            }
            assert forall|i: int, j: int|
                0 <= i < visited@.len() && 0 <= j < visited@.len() && i != j implies visited@[i]
                != visited@[j] by {
                if i == before_visited.len() as int {
                    assert(before_visited.contains(before_visited[j]));
                } else if j == before_visited.len() as int {
                    assert(before_visited.contains(before_visited[i]));
                }
            }
        }
    }
    proof {
        if reaches(es, parent, child) {
            assert(visited@.contains(parent));
            lemma_closed_contains_reached(es, visited@, parent, child);
        }
    }
    Ok(())
}

/// Replaces `child`'s whole parent set with `parents`, after checking that no
/// newly added parent would make `child` its own ancestor. A rejected call
/// writes nothing.
pub fn replace_parents(
    store: &mut InMemoryStore,
    child: TaskId,
    parents: &Parents,
    placement: Placement,
) -> (r: Result<(), CoreError>)
    ensures
        match first_cycle(old(store)@.edges, child, parents_ids(*parents)) {
            Some(p) => r == Err::<(), CoreError>(
                CoreError::CircularHierarchy { task: child, attempted_parent: p },
            ) && final(store)@ == old(store)@,
            None => r is Ok && final(store)@ == (StoreView {
                edges: replaced_edges(old(store)@.edges, child, *parents, placement),
                ..old(store)@
            }),
        },
{
    let ghost es = store@.edges;
    let current = store.list_parent_edges(child);
    let ids = parents.ids();
    let mut i: usize = 0;
    while i < ids.len()
        invariant
            i <= ids.len(),
            ids@ == parents_ids(*parents),
            es == store@.edges,
            store@ == old(store)@,
            current@ == parents_in(es, child),
            first_cycle(es, child, ids@.subrange(0, i as int)) is None,
        decreases ids.len() - i,
    {
        let p = ids[i];
        let ghost sub = ids@.subrange(0, i + 1);
        assert(sub.drop_last() == ids@.subrange(0, i as int));
        assert(sub.last() == p);
        proof {
            lemma_parents_in_contains(es, child, p);
        }
        if !contains_id(&current, p) {
            match check_new_parent(store, p, child) {
                Ok(()) => {},
                Err(e) => {
                    proof {
                        lemma_first_cycle_prefix(es, child, ids@, i as int + 1);
                    }
                    return Err(e);
                },
            }
        }
        i = i + 1;
    }
    assert(ids@.subrange(0, ids.len() as int) == ids@);
    store.replace_parent_edges(child, parents, placement);
    Ok(())
}

/// A cycle found among the first `n` ids is the first one among all of them.
proof fn lemma_first_cycle_prefix(es: Seq<crate::store::Edge>, child: TaskId, ids: Seq<TaskId>, n: int)
    requires
        0 <= n <= ids.len(),
        first_cycle(es, child, ids.subrange(0, n)) is Some,
    ensures
        first_cycle(es, child, ids) == first_cycle(es, child, ids.subrange(0, n)),
    decreases ids.len() - n,
{
    if n < ids.len() {
        let sub = ids.subrange(0, n + 1);
        assert(sub.drop_last() == ids.subrange(0, n));
        lemma_first_cycle_prefix(es, child, ids, n + 1);
    } else {
        assert(ids.subrange(0, n) == ids);
    }
}

// ---------------------------------------------------------------------------
// The hierarchy stays acyclic.
// ---------------------------------------------------------------------------

/// A walk in the new graph that does not pass through `c` before its last
/// task only uses edges the old graph already had.
proof fn lemma_old_path(
    before: Seq<crate::store::Edge>,
    after: Seq<crate::store::Edge>,
    c: TaskId,
    path: Seq<TaskId>,
)
    requires
        forall|p: Option<TaskId>, x: TaskId|
            #[trigger] edge_in(after, p, x) ==> (x != c ==> edge_in(before, p, x)),
        is_up_path(after, path),
        forall|i: int| 0 <= i < path.len() - 1 ==> path[i] != c,
    ensures
        is_up_path(before, path),
{
    assert forall|i: int| 0 <= i < path.len() - 1 implies #[trigger] step_ok(before, path, i) by {
        assert(step_ok(after, path, i));
        assert(edge_in(after, Some(path[i + 1]), path[i]));
    }
}

/// Law: replacing a task's parent set keeps the hierarchy acyclic, provided
/// no after parent already has the task among its ancestors-or-self (what
/// `replace_parents` checks before it writes).
pub proof fn lemma_replace_keeps_acyclic(
    before: Seq<crate::store::Edge>,
    c: TaskId,
    parents: Parents,
    pl: Placement,
)
    requires
        acyclic(before),
        first_cycle(before, c, parents_ids(parents)) is None,
    ensures
        acyclic(replaced_edges(before, c, parents, pl)),
{
    let after = replaced_edges(before, c, parents, pl);
    assert forall|p: Option<TaskId>, x: TaskId| #[trigger]
        edge_in(after, p, x) <==> ((x != c && edge_in(before, p, x)) || (x == c && wanted_parents(
            parents,
        ).contains(p))) by {
        lemma_replaced_edges(before, c, parents, pl, crate::store::Edge { parent: p, child: x });
    }
    // Every after parent `w` of `c` does not have `c` among its ancestors-or-self.
    assert forall|w: TaskId| #[trigger] edge_in(after, Some(w), c) implies !reaches(before, w, c) by {
        assert(wanted_parents(parents).contains(Some(w)));
        lemma_wanted_named(parents, w);
        lemma_first_cycle_none(before, c, parents_ids(parents), w);
        if edge_in(before, Some(w), c) && reaches(before, w, c) {
            let path = choose|path: Seq<TaskId>|
                is_up_path(before, path) && path[0] == w && path.last() == c;
            let cyc = seq![c] + path;
            assert forall|i: int| 0 <= i < cyc.len() - 1 implies #[trigger] step_ok(before, cyc, i) by {
                if i > 0 {
                    assert(step_ok(before, path, i - 1));
                }
            }
            assert(is_up_path(before, cyc));
            assert(cyc.len() >= 2 && cyc[0] == cyc.last());
        }
    }
    assert forall|path: Seq<TaskId>|
        #[trigger] is_up_path(after, path) && path.len() >= 2 implies path[0] != path.last() by {
        if path[0] == path.last() {
            if forall|i: int| 0 <= i < path.len() - 1 ==> path[i] != c {
                lemma_old_path(before, after, c, path);
            } else {
                let k = choose|k: int| 0 <= k < path.len() - 1 && path[k] == c;
                // Rotate the closed walk so it starts and ends at `c`.
                let rot = path.subrange(k, path.len() as int) + path.subrange(1, k + 1);
                assert(rot.len() == path.len());
                assert(rot[0] == c);
                assert(rot.last() == c) by {
                    if k == 0 {
                        assert(rot.last() == path.last());
                    } else {
                        assert(rot.last() == path[k]);
                    }
                }
                assert forall|i: int| 0 <= i < rot.len() - 1 implies #[trigger] step_ok(after, rot, i) by {
                    let m = path.len() - k;
                    if i < m - 1 {
                        assert(step_ok(after, path, k + i));
                        assert(rot[i] == path[k + i] && rot[i + 1] == path[k + i + 1]);
                    } else if i == m - 1 {
                        assert(rot[i] == path.last());
                        assert(rot[i + 1] == path[1]);
                        assert(step_ok(after, path, 0));
                    } else {
                        let j = i - m + 1;
                        assert(rot[i] == path[j] && rot[i + 1] == path[j + 1]);
                        assert(step_ok(after, path, j));
                    }
                }
                assert(step_ok(after, rot, 0));
                let w = rot[1];
                assert(edge_in(after, Some(w), c));
                // The stretch from `w` to the next visit of `c` is an before walk.
                let j = first_index_from(rot, c, 1);
                lemma_first_index_from(rot, c, 1);
                let seg = rot.subrange(1, j + 1);
                assert forall|i: int| 0 <= i < seg.len() - 1 implies seg[i] != c by {
                    assert(seg[i] == rot[i + 1]);
                }
                assert forall|i: int| 0 <= i < seg.len() - 1 implies #[trigger] step_ok(after, seg, i) by {
                    assert(step_ok(after, rot, i + 1));
                }
                assert(is_up_path(after, seg));
                lemma_old_path(before, after, c, seg);
                assert(seg[0] == w && seg.last() == c);
                assert(reaches(before, w, c));
            }
        }
    }
}

/// The first index at or after `from` where `s` holds `a`, given one exists
/// (the last element is `a`).
spec fn first_index_from(s: Seq<TaskId>, a: TaskId, from: int) -> int
    decreases s.len() - from,
{
    if from >= s.len() - 1 || s[from] == a {
        from
    } else {
        first_index_from(s, a, from + 1)
    }
}

proof fn lemma_first_index_from(s: Seq<TaskId>, a: TaskId, from: int)
    requires
        1 <= from <= s.len() - 1,
        s.last() == a,
    ensures
        from <= first_index_from(s, a, from) <= s.len() - 1,
        s[first_index_from(s, a, from)] == a,
        forall|i: int| from <= i < first_index_from(s, a, from) ==> s[i] != a,
    decreases s.len() - from,
{
    if !(from >= s.len() - 1 || s[from] == a) {
        lemma_first_index_from(s, a, from + 1);
    }
}

proof fn lemma_wanted_named(parents: Parents, w: TaskId)
    requires
        wanted_parents(parents).contains(Some(w)),
    ensures
        parents_ids(parents).contains(w),
{
    match parents {
        Parents::TopLevel => {
            assert(wanted_parents(parents) == seq![None::<TaskId>]);
            assert(wanted_parents(parents)[0] == None::<TaskId>);
        },
        Parents::Under(ids) => {
            let ws = wanted_parents(parents);
            let i = choose|i: int| 0 <= i < ws.len() && ws[i] == Some(w);
            assert(ids@[i] == w);
        },
    }
}

proof fn lemma_first_cycle_none(es: Seq<crate::store::Edge>, c: TaskId, ids: Seq<TaskId>, w: TaskId)
    requires
        first_cycle(es, c, ids) is None,
        ids.contains(w),
    ensures
        edge_in(es, Some(w), c) || !reaches(es, w, c),
    decreases ids.len(),
{
    if ids.last() != w {
        let i = choose|i: int| 0 <= i < ids.len() && ids[i] == w;
        assert(ids.drop_last()[i] == w);
        lemma_first_cycle_none(es, c, ids.drop_last(), w);
    }
}

} // verus!
