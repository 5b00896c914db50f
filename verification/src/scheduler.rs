//! The scheduler: the cursor, the committed intervals and the steps of a run.

use crate::allocators::{allocation, is_walled_in, lemma_allocation, TaskAllocatorWithPlans};
use crate::dependencies::{acyclic, dependencies_named, is_acyclic};
use crate::heuristics::{
    all_scores_zero, is_chosen, lemma_chosen_unique, lemma_dens_positive, lemma_outranks_all, lemma_outranks_zero, lemma_zero_never_outranks, outranks, scores_zero, select, Heuristic, lemma_volume_needs_work,
};
use crate::interval::{Hours, Interval};
use crate::plans::{entry_views, lemma_prefix_wf, well_formed, PlanEntryView};
use crate::tasks::{task_views, Task, TaskIdx, TaskView};
use vstd::prelude::*;

verus! {

/// The mathematical value of a [`Scheduler`].
pub struct SchedulerView {
    pub tasks: Seq<TaskView>,
    /// For each task, the intervals committed to it, oldest first.
    pub committed: Seq<Seq<Interval>>,
    pub granularity: i64,
    pub plans: Seq<PlanEntryView>,
    /// The window that bounds the run.
    pub window: Interval,
    /// The cursor.
    pub current_time: i64,
    pub heuristics: Seq<Heuristic>,
}

/// The total length, in seconds, of `intervals`.
pub open spec fn committed_seconds(intervals: Seq<Interval>) -> int
    decreases intervals.len(),
{
    if intervals.len() == 0 {
        0
    } else {
        committed_seconds(intervals.drop_last()) + intervals.last().spec_span()
    }
}

/// The list of a task after `interval` has been committed to it: the latest
/// interval is extended where `interval` begins at its end, and `interval`
/// is added otherwise.
pub open spec fn merged(list: Seq<Interval>, interval: Interval) -> Seq<Interval> {
    if list.len() > 0 && list.last().end == interval.start {
        list.update(list.len() - 1, Interval { start: list.last().start, end: interval.end })
    } else {
        list.push(interval)
    }
}

/// The committed intervals after `interval` has been committed to task `idx`.
pub open spec fn commit(committed: Seq<Seq<Interval>>, idx: int, interval: Interval) -> Seq<
    Seq<Interval>,
> {
    committed.update(idx, merged(committed[idx], interval))
}

/// The lists of committed intervals as sequences.
pub open spec fn committed_views(lists: Seq<Vec<Interval>>) -> Seq<Seq<Interval>> {
    Seq::new(lists.len(), |i: int| lists[i]@)
}

impl SchedulerView {
    /// What holds of every scheduler: each task has its list of committed
    /// intervals, each of them well formed; the granularity is positive and
    /// the window is not empty; every dependency names a task and none goes
    /// in a circle; and the plans are in order and do not intersect.
    pub open spec fn wf(&self) -> bool {
        &&& self.committed.len() == self.tasks.len()
        &&& self.granularity > 0
        &&& self.window.start < self.window.end
        &&& well_formed(self.plans)
        &&& dependencies_named(self.tasks)
        &&& acyclic(self.tasks)
        &&& forall|t: int, k: int|
            0 <= t < self.committed.len() && 0 <= k < self.committed[t].len()
                ==> (#[trigger] self.committed[t][k]).wf()
    }

    /// The work, in seconds, that task `idx` still needs; negative where
    /// more was committed than the task asked for.
    pub open spec fn remaining(&self, idx: int) -> int {
        self.tasks[idx].volume - committed_seconds(self.committed[idx])
    }

    /// No task has had more time committed than its volume.
    pub open spec fn within_volume(&self) -> bool {
        forall|t: int| 0 <= t < self.tasks.len() ==> #[trigger] self.remaining(t) >= 0
    }
}

/// Why a scheduler could not be made.
#[derive(Clone, Copy, Debug, PartialEq, Eq, Structural)]
pub enum SchedulerError {
    /// The granularity is zero or negative.
    NonPositiveGranularity,
    /// The window does not end after it starts.
    EmptyWindow,
    /// A dependency names a task that is not in the list.
    DependencyOutOfRange,
    /// A task depends on itself, directly or by way of other tasks.
    DependencyCycle,
}

/// The reason for which a scheduler cannot be made of these parts, if there
/// is one. The granularity is looked at first, then the window, then
/// whether the dependencies name tasks, then whether they go in a circle.
pub open spec fn rejection(granularity: i64, tasks: Seq<TaskView>, window: Interval) -> Option<
    SchedulerError,
> {
    if granularity <= 0 {
        Some(SchedulerError::NonPositiveGranularity)
    } else if window.start >= window.end {
        Some(SchedulerError::EmptyWindow)
    } else if !dependencies_named(tasks) {
        Some(SchedulerError::DependencyOutOfRange)
    } else if !acyclic(tasks) {
        Some(SchedulerError::DependencyCycle)
    } else {
        None
    }
}

/// The total length, in seconds, of the entries of `plans` that intersect
/// `within`. Each such entry counts in full.
pub open spec fn planned_seconds(plans: Seq<PlanEntryView>, within: Interval) -> int
    decreases plans.len(),
{
    if plans.len() == 0 {
        0
    } else {
        planned_seconds(plans.drop_last(), within) + if plans.last().interval.spec_intercepts(
            &within,
        ) {
            plans.last().interval.spec_span()
        } else {
            0
        }
    }
}

/// The latest end among `list`, if there is any interval in it.
pub open spec fn latest_end(list: Seq<Interval>) -> Option<i64>
    decreases list.len(),
{
    if list.len() == 0 {
        None
    } else {
        match latest_end(list.drop_last()) {
            Some(end) if end > list.last().end => Some(end),
            _ => Some(list.last().end),
        }
    }
}

/// The latest end among all committed intervals, if there is any.
pub open spec fn latest_end_of_all(committed: Seq<Seq<Interval>>) -> Option<i64>
    decreases committed.len(),
{
    if committed.len() == 0 {
        None
    } else {
        match (latest_end_of_all(committed.drop_last()), latest_end(committed.last())) {
            (Some(before), Some(here)) => Some(if here >= before { here } else { before }),
            (Some(before), None) => Some(before),
            (None, here) => here,
        }
    }
}

/// The task that owns the committed interval with the latest end; of
/// several such tasks the one that stands last in the list.
pub open spec fn last_task(committed: Seq<Seq<Interval>>) -> Option<int>
    decreases committed.len(),
{
    if committed.len() == 0 {
        None
    } else {
        match (latest_end_of_all(committed.drop_last()), latest_end(committed.last())) {
            (Some(before), Some(here)) if here < before => last_task(committed.drop_last()),
            (_, Some(here)) => Some(committed.len() - 1),
            (_, None) => last_task(committed.drop_last()),
        }
    }
}

/// The tasks of `0..upto` that still need work, each with what it needs.
pub open spec fn missed(v: SchedulerView, upto: int) -> Seq<(TaskIdx, Hours)>
    decreases upto,
{
    if upto <= 0 {
        Seq::empty()
    } else if v.remaining(upto - 1) > 0 {
        missed(v, upto - 1).push(
            ((upto - 1) as usize, Hours { seconds: v.remaining(upto - 1) as u128 }),
        )
    } else {
        missed(v, upto - 1)
    }
}

/// The planned total is not negative and the machine can hold it.
pub proof fn lemma_planned_bound(plans: Seq<PlanEntryView>, within: Interval)
    requires
        well_formed(plans),
    ensures
        0 <= planned_seconds(plans, within) <= plans.len() * 0xffff_ffff_ffff_ffff,
    decreases plans.len(),
{
    if plans.len() > 0 {
        let head = plans.drop_last();
        assert(head =~= plans.take(plans.len() - 1));
        lemma_prefix_wf(plans, plans.len() - 1);
        lemma_planned_bound(head, within);
        assert(plans[plans.len() - 1].interval.wf());
        assert((plans.len() - 1) * 0xffff_ffff_ffff_ffff + 0xffff_ffff_ffff_ffff == plans.len()
            * 0xffff_ffff_ffff_ffff) by (nonlinear_arith);
    }
}

/// The task that is worked on next, where there is one.
pub open spec fn chosen(v: SchedulerView) -> int {
    choose|idx: int| is_chosen(v, v.current_time, idx)
}

/// The slot that task `idx` gets at the cursor.
pub open spec fn slot_for(v: SchedulerView, idx: int) -> Interval {
    allocation(v.plans, v.granularity, v.window.end, v.remaining(idx), v.current_time)
}

/// The decision of one step: the task to work on and its slot. There is
/// none where the cursor has reached the end of the window, and where every
/// combined score is 0.
pub open spec fn next_step(v: SchedulerView) -> Option<(int, Interval)> {
    if v.current_time >= v.window.end {
        None
    } else if all_scores_zero(v, v.current_time) {
        None
    } else {
        Some((chosen(v), slot_for(v, chosen(v))))
    }
}

/// The decision of one step, where it moves the cursor: where its slot ends
/// after the cursor. A run goes on for as long as there is such a step.
pub open spec fn moving_step(v: SchedulerView) -> Option<(int, Interval)> {
    match next_step(v) {
        Some((idx, slot)) if slot.end > v.current_time => Some((idx, slot)),
        _ => None,
    }
}

/// The scheduler after `slot` has been committed to task `idx` and the
/// cursor has moved to the end of the slot.
pub open spec fn committed_step(v: SchedulerView, idx: int, slot: Interval) -> SchedulerView {
    SchedulerView { committed: commit(v.committed, idx, slot), current_time: slot.end, ..v }
}

/// The seconds that the cursor still has to go to the end of the window.
pub open spec fn time_left(v: SchedulerView) -> int {
    if v.current_time < v.window.end {
        v.window.end - v.current_time
    } else {
        0
    }
}

/// The scheduler after a run to the end: step after step is decided and
/// committed until there is no step that moves the cursor.
pub open spec fn run(v: SchedulerView) -> SchedulerView
    decreases time_left(v),
{
    match moving_step(v) {
        Some((idx, slot)) => run(committed_step(v, idx, slot)),
        None => v,
    }
}

/// Committing a slot adds its length to the total of the list.
pub proof fn lemma_merged_seconds(list: Seq<Interval>, slot: Interval)
    ensures
        committed_seconds(merged(list, slot)) == committed_seconds(list) + slot.spec_span(),
{
    if list.len() > 0 && list.last().end == slot.start {
        let longer = merged(list, slot);
        assert(longer.drop_last() =~= list.drop_last());
    } else {
        assert(list.push(slot).drop_last() =~= list);
    }
}

/// Where a step is taken, the task is one of the list, and the slot is well
/// formed, begins at or after the cursor and ends after it, and is no longer
/// than the granularity nor than the work that remains of the task, unless
/// it is empty. It meets no plan entry, unless it is the empty slot at the
/// end of the window and the entry covers the cursor and reaches over that
/// end.
pub proof fn lemma_moving_step(v: SchedulerView)
    requires
        v.wf(),
        moving_step(v) is Some,
    ensures
        ({
            let (idx, slot) = moving_step(v)->0;
            &&& is_chosen(v, v.current_time, idx)
            &&& 0 <= idx < v.tasks.len()
            &&& slot == slot_for(v, idx)
            &&& slot.wf()
            &&& slot.start >= v.current_time
            &&& slot.end > v.current_time
            &&& v.current_time < v.window.end
            &&& slot.spec_span() <= v.granularity
            &&& slot.spec_span() <= v.remaining(idx) || slot.spec_span() == 0
            &&& forall|i: int|
                0 <= i < v.plans.len() ==> !slot.spec_intercepts(&(#[trigger] v.plans[i]).interval)
                    || is_walled_in(slot, v.plans[i].interval, v.window.end, v.current_time)
        }),
{
    lemma_some_chosen(v, v.tasks.len() as int);
    let idx = chosen(v);
    lemma_allocation(v.plans, v.granularity, v.window.end, v.remaining(idx), v.current_time);
}

/// Among the first `upto` tasks, unless all their combined scores are 0,
/// there is one that outranks those before it and is not outranked by those
/// after it.
proof fn lemma_some_chosen(v: SchedulerView, upto: int)
    requires
        v.wf(),
        0 <= upto <= v.tasks.len(),
    ensures
        (forall|j: int| 0 <= j < upto ==> #[trigger] scores_zero(v, v.current_time, j))
            || exists|b: int| #[trigger] leads(v, b, upto),
        upto == v.tasks.len() && !all_scores_zero(v, v.current_time) ==> is_chosen(
            v,
            v.current_time,
            chosen(v),
        ),
    decreases upto,
{
    let now = v.current_time;
    if upto > 0 {
        lemma_some_chosen(v, upto - 1);
        let idx = upto - 1;
        lemma_dens_positive(v, now, idx);
        if scores_zero(v, now, idx) {
            if exists|b: int| #[trigger] leads(v, b, upto - 1) {
                let b = choose|b: int| #[trigger] leads(v, b, upto - 1);
                lemma_zero_never_outranks(v, now, idx, b);
                assert(leads(v, b, upto));
            }
        } else if exists|b: int| #[trigger] leads(v, b, upto - 1) {
            let b = choose|b: int| #[trigger] leads(v, b, upto - 1);
            if outranks(v, now, idx, b) {
                assert forall|j: int| 0 <= j < idx implies #[trigger] outranks(
                    v,
                    now,
                    idx,
                    j,
                ) by {
                    lemma_outranks_all(v, now, idx, b, j);
                }
                assert(leads(v, idx, upto));
            } else {
                assert(leads(v, b, upto));
            }
        } else {
            assert forall|j: int| 0 <= j < idx implies #[trigger] outranks(
                v,
                now,
                idx,
                j,
            ) by {
                lemma_outranks_zero(v, now, idx, j);
            }
            assert(leads(v, idx, upto));
        }
    }
    if upto == v.tasks.len() && !all_scores_zero(v, now) {
        let b = choose|b: int| #[trigger] leads(v, b, upto);
        assert(is_chosen(v, now, b));
    }
}

/// Task `b` is the one to work on among the first `upto` tasks.
pub open spec fn leads(v: SchedulerView, b: int, upto: int) -> bool {
    &&& 0 <= b < upto
    &&& !scores_zero(v, v.current_time, b)
    &&& forall|j: int| 0 <= j < b ==> #[trigger] outranks(v, v.current_time, b, j)
    &&& forall|j: int|
        b < j < upto ==> !#[trigger] outranks(v, v.current_time, j, b)
}

/// A step keeps the scheduler well formed, and where no task had more time
/// committed than its volume, none has after the step.
pub proof fn lemma_step_within_volume(v: SchedulerView)
    requires
        v.wf(),
        moving_step(v) is Some,
    ensures
        ({
            let (idx, slot) = moving_step(v)->0;
            let after = committed_step(v, idx, slot);
            &&& after.wf()
            &&& time_left(after) < time_left(v)
            &&& v.within_volume() ==> after.within_volume()
        }),
{
    lemma_moving_step(v);
    let (idx, slot) = moving_step(v)->0;
    let after = committed_step(v, idx, slot);
    lemma_merged_seconds(v.committed[idx], slot);
    assert forall|t: int, k: int|
        0 <= t < after.committed.len() && 0 <= k < after.committed[t].len() implies (
    #[trigger] after.committed[t][k]).wf() by {
        if t == idx {
            let list = v.committed[idx];
            if list.len() > 0 && list.last().end == slot.start {
                if k == list.len() - 1 {
                    assert(list[list.len() - 1].wf());
                } else {
                    assert(list[k].wf());
                }
            } else {
                if k < list.len() {
                    assert(list[k].wf());
                }
            }
        } else {
            assert(v.committed[t][k].wf());
        }
    }
    if v.within_volume() {
        assert forall|t: int| 0 <= t < after.tasks.len() implies #[trigger] after.remaining(t)
            >= 0 by {
            assert(v.remaining(t) >= 0);
        }
    }
}

/// Across a whole run no task has more time committed than its volume,
/// if none had before the run.
pub proof fn lemma_run_within_volume(v: SchedulerView)
    requires
        v.wf(),
    ensures
        run(v).wf(),
        moving_step(run(v)) is None,
        v.within_volume() ==> run(v).within_volume(),
    decreases time_left(v),
{
    if moving_step(v) is Some {
        lemma_step_within_volume(v);
        let (idx, slot) = moving_step(v)->0;
        lemma_run_within_volume(committed_step(v, idx, slot));
    }
}

/// Where the volume heuristic is registered, every step moves the cursor:
/// the chosen task still needs work, and its slot ends after the cursor.
pub proof fn lemma_step_moves(v: SchedulerView)
    requires
        v.wf(),
        v.heuristics.contains(Heuristic::Volume),
        next_step(v) is Some,
    ensures
        moving_step(v) == next_step(v),
{
    lemma_some_chosen(v, v.tasks.len() as int);
    let idx = chosen(v);
    lemma_volume_needs_work(v, v.current_time, idx);
    lemma_allocation(v.plans, v.granularity, v.window.end, v.remaining(idx), v.current_time);
}

/// Where the volume heuristic is registered, a run ends in one of two ways
/// only: the cursor has reached the end of the window, or every combined
/// score is 0.
pub proof fn lemma_run_ends(v: SchedulerView)
    requires
        v.wf(),
        v.heuristics.contains(Heuristic::Volume),
    ensures
        next_step(run(v)) is None,
        run(v).current_time >= run(v).window.end || all_scores_zero(run(v), run(v).current_time),
    decreases time_left(v),
{
    if next_step(v) is Some {
        lemma_step_moves(v);
        lemma_step_within_volume(v);
        let (idx, slot) = moving_step(v)->0;
        lemma_run_ends(committed_step(v, idx, slot));
    }
}

/// A run changes the committed intervals and the cursor, which never goes
/// back, and nothing else.
pub proof fn lemma_run_keeps_setup(v: SchedulerView)
    requires
        v.wf(),
    ensures
        run(v).tasks == v.tasks,
        run(v).granularity == v.granularity,
        run(v).plans == v.plans,
        run(v).window == v.window,
        run(v).heuristics == v.heuristics,
        run(v).committed.len() == v.committed.len(),
        run(v).current_time >= v.current_time,
    decreases time_left(v),
{
    if moving_step(v) is Some {
        lemma_step_within_volume(v);
        lemma_moving_step(v);
        let (idx, slot) = moving_step(v)->0;
        lemma_run_keeps_setup(committed_step(v, idx, slot));
    }
}

/// The task that [`last_task`] names has the interval that ends latest of
/// all, and no task after it has one that ends as late.
pub proof fn lemma_last_task(committed: Seq<Seq<Interval>>)
    ensures
        match last_task(committed) {
            Some(t) => {
                &&& 0 <= t < committed.len()
                &&& latest_end(committed[t]) is Some
                &&& latest_end_of_all(committed) == latest_end(committed[t])
                &&& forall|u: int|
                    t < u < committed.len() && latest_end(#[trigger] committed[u]) is Some
                        ==> latest_end(committed[u])->0 < latest_end(committed[t])->0
                &&& forall|u: int|
                    0 <= u < committed.len() && latest_end(#[trigger] committed[u]) is Some
                        ==> latest_end(committed[u])->0 <= latest_end(committed[t])->0
            },
            None => {
                &&& latest_end_of_all(committed) is None
                &&& forall|u: int|
                    0 <= u < committed.len() ==> latest_end(#[trigger] committed[u]) is None
            },
        },
    decreases committed.len(),
{
    if committed.len() > 0 {
        let head = committed.drop_last();
        lemma_last_task(head);
        assert forall|u: int| 0 <= u < head.len() implies head[u] == committed[u] by {}
        match last_task(committed) {
            Some(t) => {
                assert forall|u: int|
                    0 <= u < committed.len() && latest_end(#[trigger] committed[u]) is Some implies latest_end(
                    committed[u],
                )->0 <= latest_end(committed[t])->0 by {
                    if u < head.len() {
                        assert(head[u] == committed[u]);
                    }
                }
                assert forall|u: int|
                    t < u < committed.len() && latest_end(#[trigger] committed[u]) is Some implies latest_end(
                    committed[u],
                )->0 < latest_end(committed[t])->0 by {
                    if u < head.len() {
                        assert(head[u] == committed[u]);
                    }
                }
            },
            None => {
                assert forall|u: int| 0 <= u < committed.len() implies latest_end(
                    #[trigger] committed[u],
                ) is None by {
                    if u < head.len() {
                        assert(head[u] == committed[u]);
                    }
                }
            },
        }
    }
}

/// The latest end of a list is the end of one of its intervals, and none of
/// them ends later.
pub proof fn lemma_latest_end(list: Seq<Interval>)
    ensures
        latest_end(list) is None <==> list.len() == 0,
        latest_end(list) matches Some(end) ==> (exists|k: int|
            0 <= k < list.len() && (#[trigger] list[k]).end == end) && (forall|k: int|
            0 <= k < list.len() ==> (#[trigger] list[k]).end <= end),
    decreases list.len(),
{
    if list.len() > 0 {
        let head = list.drop_last();
        lemma_latest_end(head);
        let end = latest_end(list)->0;
        assert(list[list.len() - 1] == list.last());
        if latest_end(head) is Some && latest_end(head)->0 > list.last().end {
            let before = latest_end(head)->0;
            let k = choose|k: int| 0 <= k < head.len() && (#[trigger] head[k]).end == before;
            assert(list[k] == head[k]);
        }
        assert forall|k: int| 0 <= k < list.len() implies (#[trigger] list[k]).end <= end by {
            if k < head.len() {
                assert(head[k] == list[k]);
            }
        }
    }
}

/// The greedy scheduler: it owns the cursor and the committed intervals.
pub struct Scheduler {
    inner: Vec<Vec<Interval>>,
    tasks: Vec<Task>,
    allocator: TaskAllocatorWithPlans,
    interval: Interval,
    current_time: i64,
    heuristics: Vec<Heuristic>,
}

impl View for Scheduler {
    type V = SchedulerView;

    closed spec fn view(&self) -> SchedulerView {
        SchedulerView {
            tasks: task_views(self.tasks@),
            committed: committed_views(self.inner@),
            granularity: self.allocator.granularity,
            plans: self.allocator.plans@,
            window: self.interval,
            current_time: self.current_time,
            heuristics: self.heuristics@,
        }
    }
}

/// Whether every dependency of every task names a task of the list.
fn dependencies_in_range(tasks: &Vec<Task>) -> (r: bool)
    ensures
        r == dependencies_named(task_views(tasks@)),
{
    let mut t: usize = 0;
    while t < tasks.len()
        invariant
            t <= tasks.len(),
            forall|a: int, k: int|
                0 <= a < t && 0 <= k < tasks@[a].dependencies@.len()
                    ==> #[trigger] tasks@[a].dependencies@[k] < tasks@.len(),
        decreases tasks.len() - t,
    {
        let mut k: usize = 0;
        while k < tasks[t].dependencies.len()
            invariant
                t < tasks.len(),
                k <= tasks@[t as int].dependencies@.len(),
                forall|b: int|
                    0 <= b < k ==> #[trigger] tasks@[t as int].dependencies@[b] < tasks@.len(),
            decreases tasks@[t as int].dependencies@.len() - k,
        {
            if tasks[t].dependencies[k] >= tasks.len() {
                assert(task_views(tasks@)[t as int].dependencies[k as int] >= tasks@.len());
                return false;
            }
            k += 1;
        }
        t += 1;
    }
    true
}

impl Scheduler {
    /// What holds of every scheduler: [`Scheduler::new`] establishes it and
    /// every method keeps it.
    pub open spec fn wf(&self) -> bool {
        self@.wf()
    }

    /// A scheduler with the cursor at the start of `interval`, nothing
    /// committed and no heuristic registered.
    pub fn new(allocator: TaskAllocatorWithPlans, tasks: Vec<Task>, interval: Interval) -> (r:
        Result<Self, SchedulerError>)
        ensures
            match r {
                Ok(s) => {
                    &&& rejection(allocator.granularity, task_views(tasks@), interval) is None
                    &&& s.wf()
                    &&& s@.within_volume()
                    &&& s@.tasks == task_views(tasks@)
                    &&& s@.committed == Seq::new(tasks@.len(), |t: int| Seq::<Interval>::empty())
                    &&& s@.granularity == allocator.granularity
                    &&& s@.plans == allocator.plans@
                    &&& s@.window == interval
                    &&& s@.current_time == interval.start
                    &&& s@.heuristics == Seq::<Heuristic>::empty()
                },
                Err(e) => rejection(allocator.granularity, task_views(tasks@), interval) == Some(
                    e,
                ),
            },
    {
        if allocator.granularity <= 0 {
            return Err(SchedulerError::NonPositiveGranularity);
        }
        if interval.start >= interval.end {
            return Err(SchedulerError::EmptyWindow);
        }
        if !dependencies_in_range(&tasks) {
            return Err(SchedulerError::DependencyOutOfRange);
        }
        if !is_acyclic(&tasks) {
            return Err(SchedulerError::DependencyCycle);
        }
        let mut inner: Vec<Vec<Interval>> = Vec::new();
        let mut t: usize = 0;
        while t < tasks.len()
            invariant
                t <= tasks.len(),
                inner@.len() == t,
                forall|a: int| 0 <= a < t ==> (#[trigger] inner@[a])@.len() == 0,
            decreases tasks.len() - t,
        {
            inner.push(Vec::new());
            t += 1;
        }
        proof {
            use_type_invariant(&allocator.plans);
            assert(committed_views(inner@) =~= Seq::new(
                tasks@.len(),
                |t: int| Seq::<Interval>::empty(),
            )) by {
                assert forall|a: int| 0 <= a < inner@.len() implies committed_views(inner@)[a]
                    =~= Seq::<Interval>::empty() by {
                    assert(inner@[a]@.len() == 0);
                }
            }
        }
        let current_time: i64 = interval.start;
        let s = Scheduler {
            inner,
            tasks,
            allocator,
            current_time,
            interval,
            heuristics: Vec::new(),
        };
        Ok(s)
    }

    /// The tasks.
    pub fn tasks(&self) -> (r: &Vec<Task>)
        ensures
            task_views(r@) == self@.tasks,
    {
        &self.tasks
    }

    /// The allocator that the scheduler was made with.
    pub fn allocator(&self) -> (r: &TaskAllocatorWithPlans)
        ensures
            r.granularity == self@.granularity,
            r.plans@ == self@.plans,
    {
        &self.allocator
    }

    /// The window that bounds the run.
    pub fn interval(&self) -> (r: Interval)
        ensures
            r == self@.window,
    {
        self.interval
    }

    /// The cursor.
    pub fn current_time(&self) -> (r: i64)
        ensures
            r == self@.current_time,
    {
        self.current_time
    }

    /// The registered heuristics, in the order in which they were added.
    pub fn heuristics(&self) -> (r: &Vec<Heuristic>)
        ensures
            r@ == self@.heuristics,
    {
        &self.heuristics
    }

    /// For each task, the intervals committed to it, oldest first.
    pub fn committed(&self) -> (r: &Vec<Vec<Interval>>)
        ensures
            committed_views(r@) == self@.committed,
    {
        &self.inner
    }

    /// Commits `interval` to task `task_idx`. Where the task's latest
    /// interval ends at the start of `interval`, that interval is extended;
    /// otherwise `interval` is added to the task's list.
    pub fn schedule_task(&mut self, task_idx: TaskIdx, interval: Interval)
        requires
            old(self).wf(),
            task_idx < old(self)@.tasks.len(),
            interval.wf(),
        ensures
            final(self).wf(),
            final(self)@ == (SchedulerView {
                committed: commit(old(self)@.committed, task_idx as int, interval),
                ..old(self)@
            }),
    {
        let count: usize = self.inner[task_idx].len();
        if count > 0 && self.inner[task_idx][count - 1].end == interval.start {
            self.inner[task_idx][count - 1].end = interval.end;
        } else {
            self.inner[task_idx].push(interval);
        }
        proof {
            assert(committed_views(self.inner@) =~= commit(
                old(self)@.committed,
                task_idx as int,
                interval,
            )) by {
                assert forall|t: int| 0 <= t < self.inner@.len() implies committed_views(
                    self.inner@,
                )[t] =~= commit(old(self)@.committed, task_idx as int, interval)[t] by {}
            }
        }
    }

    /// The time committed to task `task_idx`; nothing for a task that is
    /// not in the list.
    pub fn get_total_task_hours(&self, task_idx: TaskIdx) -> (r: Hours)
        requires
            self.wf(),
        ensures
            r.seconds == if task_idx < self@.tasks.len() {
                committed_seconds(self@.committed[task_idx as int])
            } else {
                0
            },
    {
        if task_idx >= self.inner.len() {
            return Hours { seconds: 0 };
        }
        let list = &self.inner[task_idx];
        let mut total: u128 = 0;
        let mut k: usize = 0;
        assert(list@.take(0) =~= Seq::<Interval>::empty());
        assert(list@ == self@.committed[task_idx as int]);
        while k < list.len()
            invariant
                k <= list.len(),
                forall|j: int| 0 <= j < list@.len() ==> (#[trigger] list@[j]).wf(),
                total == committed_seconds(list@.take(k as int)),
                total <= k * 0xffff_ffff_ffff_ffff,
            decreases list.len() - k,
        {
            proof {
                let upto = list@.take(k as int + 1);
                assert(upto.drop_last() =~= list@.take(k as int));
                assert(upto.last() == list@[k as int]);
                assert(list@[k as int].wf());
                assert(k * 0xffff_ffff_ffff_ffff + 0xffff_ffff_ffff_ffff <= 0xffff_ffff_ffff_ffff
                    * 0xffff_ffff_ffff_ffff) by (nonlinear_arith)
                    requires
                        k < 0xffff_ffff_ffff_ffff,
                ;
                assert((k + 1) * 0xffff_ffff_ffff_ffff == k * 0xffff_ffff_ffff_ffff
                    + 0xffff_ffff_ffff_ffff) by (nonlinear_arith);
            }
            total = total + list[k].hours().seconds;
            k += 1;
        }
        assert(list@.take(k as int) =~= list@);
        Hours { seconds: total }
    }

    /// The total length of the plan entries that intersect `interval`.
    pub fn get_planned_hours(&self, interval: Interval) -> (r: Hours)
        requires
            self.wf(),
        ensures
            r.seconds == planned_seconds(self@.plans, interval),
    {
        let entries = self.allocator.plans.entries();
        let ghost plans = self@.plans;
        let mut total: u128 = 0;
        let mut k: usize = 0;
        assert(plans.take(0) =~= Seq::<PlanEntryView>::empty());
        while k < entries.len()
            invariant
                k <= entries.len(),
                plans == entry_views(entries@),
                well_formed(plans),
                total == planned_seconds(plans.take(k as int), interval),
                total <= k * 0xffff_ffff_ffff_ffff,
            decreases entries.len() - k,
        {
            proof {
                let upto = plans.take(k as int + 1);
                assert(upto.drop_last() =~= plans.take(k as int));
                assert(upto.last() == plans[k as int]);
                assert(plans[k as int].interval.wf());
                assert(k * 0xffff_ffff_ffff_ffff + 0xffff_ffff_ffff_ffff <= 0xffff_ffff_ffff_ffff
                    * 0xffff_ffff_ffff_ffff) by (nonlinear_arith)
                    requires
                        k < 0xffff_ffff_ffff_ffff,
                ;
                assert((k + 1) * 0xffff_ffff_ffff_ffff == k * 0xffff_ffff_ffff_ffff
                    + 0xffff_ffff_ffff_ffff) by (nonlinear_arith);
            }
            if entries[k].interval.intercepts(&interval) {
                total = total + entries[k].interval.hours().seconds;
            }
            k += 1;
        }
        assert(plans.take(k as int) =~= plans);
        Hours { seconds: total }
    }

    /// The task that owns the committed interval with the latest end, if
    /// anything has been committed; of several such tasks the last.
    pub fn get_last_task(&self) -> (r: Option<TaskIdx>)
        requires
            self.wf(),
        ensures
            match r {
                Some(t) => last_task(self@.committed) == Some(t as int),
                None => last_task(self@.committed) is None,
            },
    {
        let ghost committed = self@.committed;
        let mut found: Option<TaskIdx> = None;
        let mut best: i64 = 0;
        let mut t: usize = 0;
        assert(committed.take(0) =~= Seq::<Seq<Interval>>::empty());
        while t < self.inner.len()
            invariant
                t <= self.inner.len(),
                committed == committed_views(self.inner@),
                match found {
                    Some(f) => last_task(committed.take(t as int)) == Some(f as int)
                        && latest_end_of_all(committed.take(t as int)) == Some(best),
                    None => last_task(committed.take(t as int)) is None && latest_end_of_all(
                        committed.take(t as int),
                    ) is None,
                },
            decreases self.inner.len() - t,
        {
            let list = &self.inner[t];
            let mut here: Option<i64> = None;
            let mut k: usize = 0;
            assert(list@.take(0) =~= Seq::<Interval>::empty());
            while k < list.len()
                invariant
                    k <= list.len(),
                    here == latest_end(list@.take(k as int)),
                decreases list.len() - k,
            {
                proof {
                    let upto = list@.take(k as int + 1);
                    assert(upto.drop_last() =~= list@.take(k as int));
                    assert(upto.last() == list@[k as int]);
                }
                let end: i64 = list[k].end;
                here = match here {
                    Some(before) if before > end => Some(before),
                    _ => Some(end),
                };
                k += 1;
            }
            proof {
                assert(list@.take(k as int) =~= list@);
                let upto = committed.take(t as int + 1);
                assert(upto.drop_last() =~= committed.take(t as int));
                assert(upto.last() == list@);
            }
            match here {
                Some(end) => {
                    if found.is_none() || end >= best {
                        found = Some(t);
                        best = end;
                    }
                },
                None => {},
            }
            t += 1;
        }
        assert(committed.take(t as int) =~= committed);
        found
    }

    /// The tasks that still need work, in the order of the list, each with
    /// the hours that it is short of.
    pub fn get_missed_deadlines_tasks(&self) -> (r: Vec<(TaskIdx, Hours)>)
        requires
            self.wf(),
        ensures
            r@ == missed(self@, self@.tasks.len() as int),
    {
        let mut out: Vec<(TaskIdx, Hours)> = Vec::new();
        let mut t: usize = 0;
        while t < self.tasks.len()
            invariant
                self.wf(),
                t <= self.tasks.len(),
                out@ == missed(self@, t as int),
            decreases self.tasks.len() - t,
        {
            let done: u128 = self.get_total_task_hours(t).seconds;
            let volume: u128 = self.tasks[t].volume as u128;
            assert(self@.tasks[t as int].volume == self.tasks@[t as int].volume);
            if volume > done {
                out.push((t, Hours { seconds: volume - done }));
            }
            t += 1;
        }
        out
    }

    /// Decides the next step and moves the cursor to the end of its slot.
    /// The slot is not committed: that is left to
    /// [`Scheduler::schedule_task`]. There is no step where the cursor has
    /// reached the end of the window, and where every combined score is 0;
    /// then nothing changes.
    pub fn next(&mut self) -> (r: Option<(TaskIdx, Interval)>)
        requires
            old(self).wf(),
        ensures
            final(self).wf(),
            r is None <==> old(self)@.current_time >= old(self)@.window.end || all_scores_zero(
                old(self)@,
                old(self)@.current_time,
            ),
            match r {
                Some((idx, slot)) => {
                    &&& next_step(old(self)@) == Some((idx as int, slot))
                    &&& is_chosen(old(self)@, old(self)@.current_time, idx as int)
                    &&& slot == slot_for(old(self)@, idx as int)
                    &&& idx < old(self)@.tasks.len()
                    &&& slot.wf()
                    &&& slot.end >= old(self)@.current_time
                    &&& final(self)@ == (SchedulerView { current_time: slot.end, ..old(self)@ })
                },
                None => next_step(old(self)@) is None && final(self)@ == old(self)@,
            },
    {
        let ghost v = self@;
        if self.current_time >= self.interval.end {
            return None;
        }
        let idx: TaskIdx = match select(self, self.current_time) {
            Some(idx) => idx,
            None => {
                return None;
            },
        };
        proof {
            lemma_chosen_unique(v, v.current_time, idx as int, chosen(v));
            assert(!scores_zero(v, v.current_time, idx as int));
        }
        let slot = self.allocator.allocate(self, self.current_time, idx);
        self.current_time = slot.end;
        Some((idx, slot))
    }

    /// Runs to the end: every step that [`Scheduler::next`] decides is
    /// committed, for as long as the steps move the cursor. Where the volume
    /// heuristic is registered every step does, and the run ends when the
    /// cursor has reached the end of the window or every combined score is
    /// 0. Without it a task that needs no work may be chosen: its step does
    /// not move the cursor, is not committed, and ends the run, as it would
    /// be decided again and again.
    pub fn schedule(&mut self)
        requires
            old(self).wf(),
        ensures
            final(self).wf(),
            final(self)@ == run(old(self)@),
            moving_step(final(self)@) is None,
            old(self)@.heuristics.contains(Heuristic::Volume) ==> final(self)@.current_time
                >= final(self)@.window.end || all_scores_zero(
                final(self)@,
                final(self)@.current_time,
            ),
            old(self)@.within_volume() ==> final(self)@.within_volume(),
            final(self)@.tasks == old(self)@.tasks,
            final(self)@.plans == old(self)@.plans,
            final(self)@.granularity == old(self)@.granularity,
            final(self)@.window == old(self)@.window,
            final(self)@.heuristics == old(self)@.heuristics,
            final(self)@.current_time >= old(self)@.current_time,
    {
        proof {
            lemma_run_within_volume(self@);
            lemma_run_keeps_setup(self@);
            if self@.heuristics.contains(Heuristic::Volume) {
                lemma_run_ends(self@);
            }
        }
        loop
            invariant
                self.wf(),
                run(self@) == run(old(self)@),
            ensures
                self.wf(),
                self@ == run(old(self)@),
            decreases time_left(self@),
        {
            let ghost before = self@;
            let cursor: i64 = self.current_time;
            match self.next() {
                Some((idx, slot)) => {
                    if slot.end <= cursor {
                        assert(self@ == before);
                        break ;
                    }
                    proof {
                        lemma_step_within_volume(before);
                    }
                    self.schedule_task(idx, slot);
                    assert(self@ == committed_step(before, idx as int, slot));
                },
                None => {
                    break ;
                },
            }
        }
    }

    /// Registers one more heuristic.
    pub fn add_heuristic(self, heuristic: Heuristic) -> (r: Self)
        requires
            self.wf(),
        ensures
            r.wf(),
            r@ == (SchedulerView { heuristics: self@.heuristics.push(heuristic), ..self@ }),
    {
        let mut s = self;
        s.heuristics.push(heuristic);
        s
    }
}

} // verus!
