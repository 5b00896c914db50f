//! The dependencies between tasks: whether they can be worked off in some
//! order.

use crate::tasks::{task_views, Task, TaskView};
use vstd::prelude::*;

verus! {

/// Every dependency of every task names a task of the list.
pub open spec fn dependencies_named(tasks: Seq<TaskView>) -> bool {
    forall|t: int, k: int|
        0 <= t < tasks.len() && 0 <= k < tasks[t].dependencies.len()
            ==> #[trigger] tasks[t].dependencies[k] < tasks.len()
}

/// `rank` orders the tasks so that every task comes after all the tasks it
/// depends on.
pub open spec fn ranked(tasks: Seq<TaskView>, rank: Seq<int>) -> bool {
    &&& rank.len() == tasks.len()
    &&& forall|t: int| 0 <= t < rank.len() ==> 0 <= #[trigger] rank[t]
    &&& forall|t: int, k: int|
        0 <= t < tasks.len() && 0 <= k < tasks[t].dependencies.len() ==> rank[(
        #[trigger] tasks[t].dependencies[k]) as int] < rank[t]
}

/// No task depends on itself, whether directly or by way of other tasks:
/// there is an order in which every task comes after all that it depends on.
pub open spec fn acyclic(tasks: Seq<TaskView>) -> bool {
    exists|rank: Seq<int>| ranked(tasks, rank)
}

/// Task `t` is one of `members`.
pub open spec fn is_member(members: Seq<bool>, t: int) -> bool {
    0 <= t < members.len() && members[t]
}

/// Task `t` depends on one of `members`.
pub open spec fn leans_on(tasks: Seq<TaskView>, members: Seq<bool>, t: int) -> bool {
    exists|k: int|
        0 <= k < tasks[t].dependencies.len() && members[(#[trigger] tasks[t].dependencies[k]) as int]
}

/// The tasks marked in `members` hold each other up: there is at least one
/// of them, and each of them depends on another of them.
pub open spec fn is_knot(tasks: Seq<TaskView>, members: Seq<bool>) -> bool {
    &&& members.len() == tasks.len()
    &&& exists|t: int| #[trigger] is_member(members, t)
    &&& forall|t: int| #[trigger] is_member(members, t) ==> leans_on(tasks, members, t)
}

/// In an order that puts every task after its dependencies, the tasks of a
/// knot stand above every bound.
proof fn lemma_knot_above(tasks: Seq<TaskView>, members: Seq<bool>, rank: Seq<int>, bound: int)
    requires
        dependencies_named(tasks),
        is_knot(tasks, members),
        ranked(tasks, rank),
        bound >= -1,
    ensures
        forall|t: int| #[trigger] is_member(members, t) ==> rank[t] > bound,
    decreases bound + 1,
{
    if bound >= 0 {
        lemma_knot_above(tasks, members, rank, bound - 1);
        assert forall|t: int| #[trigger] is_member(members, t) implies rank[t] > bound by {
            assert(leans_on(tasks, members, t));
            let k = choose|k: int|
                0 <= k < tasks[t].dependencies.len() && members[(
                #[trigger] tasks[t].dependencies[k]) as int];
            let d = tasks[t].dependencies[k] as int;
            assert(is_member(members, d));
            assert(rank[d] > bound - 1);
            assert(rank[d] < rank[t]);
        }
    } else {
        assert forall|t: int| #[trigger] is_member(members, t) implies rank[t] > bound by {
            assert(0 <= rank[t]);
        }
    }
}

/// Tasks that hold each other up cannot be put in order.
pub proof fn lemma_knot_is_cycle(tasks: Seq<TaskView>, members: Seq<bool>)
    requires
        dependencies_named(tasks),
        is_knot(tasks, members),
    ensures
        !acyclic(tasks),
{
    if acyclic(tasks) {
        let rank = choose|rank: Seq<int>| ranked(tasks, rank);
        let t = choose|t: int| #[trigger] is_member(members, t);
        assert(0 <= rank[t]);
        lemma_knot_above(tasks, members, rank, rank[t]);
    }
}

/// The number of tasks that are not marked in `resolved`.
pub open spec fn pending(resolved: Seq<bool>) -> nat
    decreases resolved.len(),
{
    if resolved.len() == 0 {
        0
    } else {
        pending(resolved.drop_last()) + if resolved.last() {
            0nat
        } else {
            1nat
        }
    }
}

/// Marking one more task leaves one task less to mark.
proof fn lemma_pending_marked(resolved: Seq<bool>, t: int)
    requires
        0 <= t < resolved.len(),
        !resolved[t],
    ensures
        pending(resolved.update(t, true)) + 1 == pending(resolved),
    decreases resolved.len(),
{
    let after = resolved.update(t, true);
    if t == resolved.len() - 1 {
        assert(after.drop_last() =~= resolved.drop_last());
    } else {
        assert(after.drop_last() =~= resolved.drop_last().update(t, true));
        lemma_pending_marked(resolved.drop_last(), t);
    }
}

/// The tasks that are not marked in `resolved`.
pub open spec fn unmarked(resolved: Seq<bool>) -> Seq<bool> {
    Seq::new(resolved.len(), |a: int| !resolved[a])
}

/// Every unmarked task among the first `upto` depends on an unmarked task.
pub open spec fn stuck(tasks: Seq<TaskView>, resolved: Seq<bool>, upto: int) -> bool {
    forall|a: int|
        #[trigger] is_member(unmarked(resolved), a) && a < upto ==> leans_on(
            tasks,
            unmarked(resolved),
            a,
        )
}

/// The marked tasks have their places in `rank`, below `placed`, each after
/// all the tasks it depends on, which are marked too.
pub open spec fn placed_in_order(
    tasks: Seq<TaskView>,
    resolved: Seq<bool>,
    rank: Seq<int>,
    placed: int,
) -> bool {
    &&& resolved.len() == tasks.len()
    &&& rank.len() == tasks.len()
    &&& forall|a: int| 0 <= a < tasks.len() ==> 0 <= #[trigger] rank[a] < placed
    &&& forall|a: int, k: int|
        0 <= a < tasks.len() && resolved[a] && 0 <= k < tasks[a].dependencies.len() ==> resolved[(
        #[trigger] tasks[a].dependencies[k]) as int] && rank[tasks[a].dependencies[k] as int]
            < rank[a]
}

/// Marking a task whose dependencies are all marked, and giving it the next
/// place, keeps the marked tasks in order.
proof fn lemma_place_next(
    tasks: Seq<TaskView>,
    resolved: Seq<bool>,
    rank: Seq<int>,
    placed: int,
    t: int,
)
    requires
        dependencies_named(tasks),
        placed_in_order(tasks, resolved, rank, placed),
        0 <= t < tasks.len(),
        !resolved[t],
        forall|k: int|
            0 <= k < tasks[t].dependencies.len() ==> resolved[(
            #[trigger] tasks[t].dependencies[k]) as int],
    ensures
        placed_in_order(tasks, resolved.update(t, true), rank.update(t, placed), placed + 1),
{
    let marks = resolved.update(t, true);
    let places = rank.update(t, placed);
    assert forall|a: int| 0 <= a < tasks.len() implies 0 <= #[trigger] places[a] < placed + 1 by {
        if a != t {
            assert(0 <= rank[a] < placed);
        }
    }
    assert forall|a: int, k: int|
        0 <= a < tasks.len() && marks[a] && 0 <= k < tasks[a].dependencies.len() implies marks[(
    #[trigger] tasks[a].dependencies[k]) as int] && places[tasks[a].dependencies[k] as int]
        < places[a] by {
        let d = tasks[a].dependencies[k] as int;
        assert(d < tasks.len());
        if a == t {
            assert(resolved[d]);
            assert(0 <= rank[d] < placed);
        } else {
            assert(resolved[d] && rank[d] < rank[a]);
        }
    }
}

/// Where every task has its place, the places are an order.
proof fn lemma_placed_is_ranked(
    tasks: Seq<TaskView>,
    resolved: Seq<bool>,
    rank: Seq<int>,
    placed: int,
)
    requires
        placed_in_order(tasks, resolved, rank, placed),
        forall|a: int| 0 <= a < resolved.len() ==> #[trigger] resolved[a],
    ensures
        acyclic(tasks),
{
    assert forall|t: int, k: int|
        0 <= t < tasks.len() && 0 <= k < tasks[t].dependencies.len() implies rank[(
    #[trigger] tasks[t].dependencies[k]) as int] < rank[t] by {
        assert(resolved[t]);
    }
    assert(ranked(tasks, rank));
}

/// Where the search is stuck with a task unmarked, the unmarked tasks hold
/// each other up.
proof fn lemma_stuck_is_cycle(tasks: Seq<TaskView>, resolved: Seq<bool>, t: int)
    requires
        dependencies_named(tasks),
        resolved.len() == tasks.len(),
        stuck(tasks, resolved, tasks.len() as int),
        0 <= t < resolved.len(),
        !resolved[t],
    ensures
        !acyclic(tasks),
{
    let members = unmarked(resolved);
    assert(is_member(members, t));
    assert forall|a: int| #[trigger] is_member(members, a) implies leans_on(tasks, members, a) by {
        assert(a < tasks.len());
    }
    lemma_knot_is_cycle(tasks, members);
}

/// Whether all the dependencies of task `t` are marked in `resolved`.
fn all_resolved(tasks: &Vec<Task>, resolved: &Vec<bool>, t: usize) -> (r: bool)
    requires
        dependencies_named(task_views(tasks@)),
        resolved@.len() == tasks@.len(),
        t < tasks@.len(),
    ensures
        r ==> forall|k: int|
            0 <= k < task_views(tasks@)[t as int].dependencies.len() ==> resolved@[(
            #[trigger] task_views(tasks@)[t as int].dependencies[k]) as int],
        !r ==> leans_on(task_views(tasks@), unmarked(resolved@), t as int),
{
    let list = &tasks[t].dependencies;
    let ghost views = task_views(tasks@);
    assert(views[t as int].dependencies == list@);
    let mut k: usize = 0;
    while k < list.len()
        invariant
            views == task_views(tasks@),
            dependencies_named(views),
            resolved@.len() == tasks@.len(),
            t < tasks@.len(),
            views[t as int].dependencies == list@,
            k <= list.len(),
            forall|j: int| 0 <= j < k ==> resolved@[(#[trigger] list@[j]) as int],
        decreases list.len() - k,
    {
        assert(views[t as int].dependencies[k as int] < tasks@.len());
        if !resolved[list[k]] {
            assert(unmarked(resolved@)[views[t as int].dependencies[k as int] as int]);
            return false;
        }
        k += 1;
    }
    true
}

/// Whether every task is marked; if not, one that is not.
fn first_unmarked(resolved: &Vec<bool>) -> (r: Option<usize>)
    ensures
        match r {
            Some(t) => t < resolved@.len() && !resolved@[t as int],
            None => forall|a: int| 0 <= a < resolved@.len() ==> #[trigger] resolved@[a],
        },
{
    let mut t: usize = 0;
    while t < resolved.len()
        invariant
            t <= resolved.len(),
            forall|a: int| 0 <= a < t ==> #[trigger] resolved@[a],
        decreases resolved.len() - t,
    {
        if !resolved[t] {
            return Some(t);
        }
        t += 1;
    }
    None
}

/// Whether the tasks can be put in an order in which each comes after all
/// that it depends on.
pub fn is_acyclic(tasks: &Vec<Task>) -> (r: bool)
    requires
        dependencies_named(task_views(tasks@)),
    ensures
        r == acyclic(task_views(tasks@)),
{
    let ghost views = task_views(tasks@);
    let count: usize = tasks.len();
    let mut resolved: Vec<bool> = Vec::new();
    let mut t: usize = 0;
    while t < count
        invariant
            t <= count,
            resolved@.len() == t,
            forall|a: int| 0 <= a < t ==> !#[trigger] resolved@[a],
        decreases count - t,
    {
        resolved.push(false);
        t += 1;
    }
    let ghost mut rank: Seq<int> = Seq::new(count as nat, |a: int| 0int);
    let ghost mut placed: int = 1;
    let mut going = true;
    while going
        invariant
            views == task_views(tasks@),
            dependencies_named(views),
            count == tasks@.len(),
            placed_in_order(views, resolved@, rank, placed),
            !going ==> stuck(views, resolved@, count as int),
        decreases pending(resolved@) + if going { 1nat } else { 0nat },
    {
        let mut progress = false;
        let ghost start = resolved@;
        let mut t: usize = 0;
        while t < count
            invariant
                views == task_views(tasks@),
                dependencies_named(views),
                count == tasks@.len(),
                t <= count,
                placed_in_order(views, resolved@, rank, placed),
                progress ==> pending(resolved@) < pending(start),
                !progress ==> resolved@ == start,
                !progress ==> stuck(views, resolved@, t as int),
            decreases count - t,
        {
            if !resolved[t] {
                if all_resolved(tasks, &resolved, t) {
                    proof {
                        lemma_pending_marked(resolved@, t as int);
                        lemma_place_next(views, resolved@, rank, placed, t as int);
                        rank = rank.update(t as int, placed);
                        placed = placed + 1;
                    }
                    resolved.set(t, true);
                    progress = true;
                }
            }
            t += 1;
        }
        going = progress;
    }
    match first_unmarked(&resolved) {
        Some(t) => {
            proof {
                lemma_stuck_is_cycle(views, resolved@, t as int);
            }
            false
        },
        None => {
            proof {
                lemma_placed_is_ranked(views, resolved@, rank, placed);
            }
            true
        },
    }
}

} // verus!
