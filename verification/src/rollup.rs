//! Progress rollup from a task's direct children.
//!
//! A task's progress counts only its direct children's own status: a child
//! that is complete counts in full even when its own children are not. A
//! task without children counts itself.

use vstd::prelude::*;

use crate::model::{Progress, Task, TaskStatus, TaskView};

verus! {

/// How many of `ts` are complete.
pub open spec fn count_complete(ts: Seq<TaskView>) -> nat
    decreases ts.len(),
{
    if ts.len() == 0 {
        0
    } else {
        count_complete(ts.drop_last()) + if ts.last().status == TaskStatus::Complete {
            1nat
        } else {
            0nat
        }
    }
}

/// The progress of a task with status `own` and direct children `children`.
pub open spec fn rollup(children: Seq<TaskView>, own: TaskStatus) -> Progress {
    if children.len() == 0 {
        Progress { complete: if own == TaskStatus::Complete { 1 } else { 0 }, total: 1 }
    } else {
        Progress { complete: count_complete(children) as u64, total: children.len() as u64 }
    }
}

pub proof fn lemma_count_complete_bound(ts: Seq<TaskView>)
    ensures
        count_complete(ts) <= ts.len(),
    decreases ts.len(),
{
    if ts.len() > 0 {
        lemma_count_complete_bound(ts.drop_last());
    }
}

/// The progress of a task with status `own_status` whose direct children are
/// `children`: complete children over all children, or the task's own
/// completion (`1/1` or `0/1`) when it has none.
pub fn direct_children_progress(children: &Vec<Task>, own_status: TaskStatus) -> (p: Progress)
    ensures
        p == rollup(children@.map_values(|t: Task| t@), own_status),
        p.complete <= p.total,
        p.total >= 1,
{
    let ghost views = children@.map_values(|t: Task| t@);
    if children.len() == 0 {
        return match own_status {
            TaskStatus::Complete => Progress { complete: 1, total: 1 },
            TaskStatus::Incomplete => Progress { complete: 0, total: 1 },
        };
    }
    let mut done: usize = 0;
    let mut i: usize = 0;
    while i < children.len()
        invariant
            i <= children.len(),
            views == children@.map_values(|t: Task| t@),
            done == count_complete(views.subrange(0, i as int)),
            done <= i,
        decreases children.len() - i,
    {
        let ghost sub = views.subrange(0, i + 1);
        assert(sub.drop_last() == views.subrange(0, i as int));
        assert(sub.last() == children@[i as int]@);
        if children[i].status == TaskStatus::Complete {
            done = done + 1;
        }
        i = i + 1;
    }
    assert(views.subrange(0, children.len() as int) == views);
    Progress { complete: done as u64, total: children.len() as u64 }
}

} // verus!
