//! The scoring functions that rank the tasks.
//!
//! A heuristic gives a task a score that is never negative. The score of a
//! task is the product of the scores that the registered heuristics give it,
//! and the task with the greatest score is worked on next.

use crate::interval::Interval;
use crate::natural::{product, Natural};
use crate::scheduler::{
    last_task, lemma_planned_bound, planned_seconds, Scheduler, SchedulerView,
};
use crate::tasks::TaskIdx;
use vstd::prelude::*;

verus! {

/// A score: the fraction `num / den`, which is never negative.
#[derive(Clone, Copy, Debug, PartialEq, Eq, Structural)]
pub struct Score {
    pub num: u64,
    pub den: u64,
}

/// The scoring functions that a scheduler can register.
#[derive(Clone, Copy, Debug, PartialEq, Eq, Structural)]
pub enum Heuristic {
    Dependency,
    Priority,
    Deadline,
    Volume,
    Locality,
}

/// The seconds in an hour.
pub const SECONDS_PER_HOUR: u64 = 3600;

/// Task `dep` no longer holds back the tasks that depend on it: its deadline
/// has come or no work is left of it.
pub open spec fn dependency_met(v: SchedulerView, now: i64, dep: int) -> bool {
    v.tasks[dep].deadline <= now || v.remaining(dep) <= 0
}

/// Every dependency of task `idx` is met.
pub open spec fn dependencies_met(v: SchedulerView, now: i64, idx: int) -> bool {
    forall|k: int|
        0 <= k < v.tasks[idx].dependencies.len() ==> dependency_met(
            v,
            now,
            #[trigger] v.tasks[idx].dependencies[k] as int,
        )
}

/// 1 where every dependency of the task is met, else 0.
pub open spec fn dependency_score(v: SchedulerView, now: i64, idx: int) -> Score {
    if dependencies_met(v, now, idx) {
        Score { num: 1, den: 1 }
    } else {
        Score { num: 0, den: 1 }
    }
}

/// The priority of the task.
pub open spec fn priority_score(v: SchedulerView, idx: int) -> Score {
    Score { num: v.tasks[idx].priority, den: 1 }
}

/// The seconds between `now` and the deadline of the task that no plan
/// entry meeting that stretch takes away.
pub open spec fn working_seconds(v: SchedulerView, now: i64, idx: int) -> int {
    v.tasks[idx].deadline - now - planned_seconds(
        v.plans,
        Interval { start: now, end: v.tasks[idx].deadline },
    )
}

/// One over the working hours that are left until the deadline; 0 where
/// none are left.
pub open spec fn deadline_score(v: SchedulerView, now: i64, idx: int) -> Score {
    if working_seconds(v, now, idx) <= 0 {
        Score { num: 0, den: 1 }
    } else {
        Score { num: SECONDS_PER_HOUR, den: working_seconds(v, now, idx) as u64 }
    }
}

/// The hours of work that the task still needs; 0 where more has been
/// committed than it asked for.
pub open spec fn volume_score(v: SchedulerView, idx: int) -> Score {
    Score {
        num: if v.remaining(idx) <= 0 {
            0
        } else {
            v.remaining(idx) as u64
        },
        den: SECONDS_PER_HOUR,
    }
}

/// 2 for the task whose committed interval ends latest, 1 for the others.
pub open spec fn locality_score(v: SchedulerView, idx: int) -> Score {
    if last_task(v.committed) == Some(idx) {
        Score { num: 2, den: 1 }
    } else {
        Score { num: 1, den: 1 }
    }
}

/// The score that `heuristic` gives task `idx` at `now`.
pub open spec fn heuristic_score(heuristic: Heuristic, v: SchedulerView, now: i64, idx: int) -> Score {
    match heuristic {
        Heuristic::Dependency => dependency_score(v, now, idx),
        Heuristic::Priority => priority_score(v, idx),
        Heuristic::Deadline => deadline_score(v, now, idx),
        Heuristic::Volume => volume_score(v, idx),
        Heuristic::Locality => locality_score(v, idx),
    }
}

/// The numerators of the scores that the registered heuristics give task
/// `idx`, in the order of the registry.
pub open spec fn score_nums(v: SchedulerView, now: i64, idx: int) -> Seq<u64> {
    Seq::new(v.heuristics.len(), |k: int| heuristic_score(v.heuristics[k], v, now, idx).num)
}

/// The denominators of those scores.
pub open spec fn score_dens(v: SchedulerView, now: i64, idx: int) -> Seq<u64> {
    Seq::new(v.heuristics.len(), |k: int| heuristic_score(v.heuristics[k], v, now, idx).den)
}

/// The combined score of task `idx` is 0.
pub open spec fn scores_zero(v: SchedulerView, now: i64, idx: int) -> bool {
    product(score_nums(v, now, idx)) == 0
}

/// The combined score of task `a` is greater than that of task `b`. The
/// combined score is the product of the heuristics' scores; two of them are
/// compared by multiplying across.
pub open spec fn outranks(v: SchedulerView, now: i64, a: int, b: int) -> bool {
    product(score_nums(v, now, a)) * product(score_dens(v, now, b)) > product(
        score_nums(v, now, b),
    ) * product(score_dens(v, now, a))
}

/// Task `idx` is the one to work on: its combined score is not 0, it is
/// greater than that of every task before it and not less than that of any
/// task after it.
pub open spec fn is_chosen(v: SchedulerView, now: i64, idx: int) -> bool {
    &&& 0 <= idx < v.tasks.len()
    &&& !scores_zero(v, now, idx)
    &&& forall|j: int| 0 <= j < idx ==> #[trigger] outranks(v, now, idx, j)
    &&& forall|j: int| idx < j < v.tasks.len() ==> !#[trigger] outranks(v, now, j, idx)
}

/// No task can make progress: every combined score is 0.
pub open spec fn all_scores_zero(v: SchedulerView, now: i64) -> bool {
    forall|j: int| 0 <= j < v.tasks.len() ==> #[trigger] scores_zero(v, now, j)
}

/// A product of positive numbers is positive.
pub proof fn lemma_product_positive(factors: Seq<u64>)
    requires
        forall|k: int| 0 <= k < factors.len() ==> #[trigger] factors[k] > 0,
    ensures
        product(factors) > 0,
    decreases factors.len(),
{
    if factors.len() > 0 {
        assert forall|k: int| 0 <= k < factors.drop_last().len() implies #[trigger] factors.drop_last()[k]
            > 0 by {
            assert(factors.drop_last()[k] == factors[k]);
        }
        lemma_product_positive(factors.drop_last());
        assert(factors[factors.len() - 1] > 0);
        assert(product(factors.drop_last()) * factors.last() as nat > 0) by (nonlinear_arith)
            requires
                product(factors.drop_last()) > 0,
                factors.last() > 0,
        ;
    }
}

/// No heuristic gives a score with a denominator of 0.
pub proof fn lemma_dens_positive(v: SchedulerView, now: i64, idx: int)
    requires
        v.wf(),
        0 <= idx < v.tasks.len(),
    ensures
        product(score_dens(v, now, idx)) > 0,
{
    let window = Interval { start: now, end: v.tasks[idx].deadline };
    lemma_planned_bound(v.plans, window);
    assert forall|k: int| 0 <= k < score_dens(v, now, idx).len() implies #[trigger] score_dens(
        v,
        now,
        idx,
    )[k] > 0 by {
        let score = heuristic_score(v.heuristics[k], v, now, idx);
        assert(score.den > 0);
    }
    lemma_product_positive(score_dens(v, now, idx));
}

/// At most one task is chosen.
pub proof fn lemma_chosen_unique(v: SchedulerView, now: i64, a: int, b: int)
    requires
        is_chosen(v, now, a),
        is_chosen(v, now, b),
    ensures
        a == b,
{
    if a < b {
        assert(outranks(v, now, b, a));
    } else if b < a {
        assert(outranks(v, now, a, b));
    }
}

/// Ranking carries over: what outranks a task outranks all that the task is
/// not outranked by.
proof fn lemma_outranks_chain(
    top_num: nat,
    top_den: nat,
    mid_num: nat,
    mid_den: nat,
    low_num: nat,
    low_den: nat,
)
    requires
        top_den > 0,
        mid_den > 0,
        low_den > 0,
        top_num * mid_den > mid_num * top_den,
        !(low_num * mid_den > mid_num * low_den),
    ensures
        top_num * low_den > low_num * top_den,
{
    assert(top_num * mid_den * low_den > mid_num * top_den * low_den) by (nonlinear_arith)
        requires
            top_num * mid_den > mid_num * top_den,
            low_den > 0,
    ;
    assert(mid_num * low_den * top_den >= low_num * mid_den * top_den) by (nonlinear_arith)
        requires
            mid_num * low_den >= low_num * mid_den,
            top_den > 0,
    ;
    assert(top_num * low_den > low_num * top_den) by (nonlinear_arith)
        requires
            top_num * mid_den * low_den > mid_num * top_den * low_den,
            mid_num * low_den * top_den >= low_num * mid_den * top_den,
            mid_den > 0,
    ;
}

/// Whether 0 is among `factors`, which is when their product is 0.
fn has_zero(factors: &Vec<u64>) -> (r: bool)
    ensures
        r == (product(factors@) == 0),
{
    let mut k: usize = 0;
    assert(factors@.take(0) =~= Seq::<u64>::empty());
    while k < factors.len()
        invariant
            k <= factors.len(),
            product(factors@.take(k as int)) > 0,
        decreases factors.len() - k,
    {
        proof {
            let upto = factors@.take(k as int + 1);
            assert(upto.drop_last() =~= factors@.take(k as int));
            assert(upto.last() == factors@[k as int]);
        }
        if factors[k] == 0 {
            proof {
                lemma_zero_stays(factors@, k as int + 1);
            }
            return true;
        }
        proof {
            assert(product(factors@.take(k as int)) * factors@[k as int] as nat > 0)
                by (nonlinear_arith)
                requires
                    product(factors@.take(k as int)) > 0,
                    factors@[k as int] > 0,
            ;
        }
        k += 1;
    }
    assert(factors@.take(k as int) =~= factors@);
    false
}

/// Once the product of a leading part is 0, the whole product is 0.
proof fn lemma_zero_stays(factors: Seq<u64>, upto: int)
    requires
        0 <= upto <= factors.len(),
        product(factors.take(upto)) == 0,
    ensures
        product(factors) == 0,
    decreases factors.len() - upto,
{
    if upto == factors.len() {
        assert(factors.take(upto) =~= factors);
    } else {
        let next = factors.take(upto + 1);
        assert(next.drop_last() =~= factors.take(upto));
        assert(product(next) == 0) by (nonlinear_arith)
            requires
                product(next) == product(factors.take(upto)) * next.last() as nat,
                product(factors.take(upto)) == 0,
        ;
        lemma_zero_stays(factors, upto + 1);
    }
}

/// 1 where every dependency of the task is either past its deadline at
/// `current_time` or has no work left, else 0.
pub fn dependency(scheduler: &Scheduler, current_time: i64, task_idx: TaskIdx) -> (r: Score)
    requires
        scheduler.wf(),
        task_idx < scheduler@.tasks.len(),
    ensures
        r == dependency_score(scheduler@, current_time, task_idx as int),
        r.num == 1 <==> dependencies_met(scheduler@, current_time, task_idx as int),
        r.den > 0,
{
    let tasks = scheduler.tasks();
    let task = &tasks[task_idx];
    let ghost v = scheduler@;
    assert(v.tasks[task_idx as int] == task@);
    let mut k: usize = 0;
    while k < task.dependencies.len()
        invariant
            scheduler.wf(),
            v == scheduler@,
            crate::tasks::task_views(tasks@) == v.tasks,
            task_idx < tasks@.len(),
            task == tasks@[task_idx as int],
            k <= task.dependencies@.len(),
            forall|j: int|
                0 <= j < k ==> dependency_met(
                    v,
                    current_time,
                    #[trigger] v.tasks[task_idx as int].dependencies[j] as int,
                ),
        decreases task.dependencies@.len() - k,
    {
        let dep: usize = task.dependencies[k];
        assert(v.tasks[task_idx as int].dependencies[k as int] == dep);
        assert(dep < v.tasks.len());
        let dependency = &tasks[dep];
        assert(v.tasks[dep as int] == dependency@);
        let done: u128 = scheduler.get_total_task_hours(dep).seconds;
        if !(dependency.deadline <= current_time || dependency.volume as u128 <= done) {
            assert(!dependency_met(v, current_time, dep as int));
            return Score { num: 0, den: 1 };
        }
        k += 1;
    }
    Score { num: 1, den: 1 }
}

/// The priority of the task, as it stands.
pub fn priority(scheduler: &Scheduler, current_time: i64, task_idx: TaskIdx) -> (r: Score)
    requires
        scheduler.wf(),
        task_idx < scheduler@.tasks.len(),
    ensures
        r == priority_score(scheduler@, task_idx as int),
        r.den > 0,
{
    let tasks = scheduler.tasks();
    assert(scheduler@.tasks[task_idx as int] == tasks@[task_idx as int]@);
    Score { num: tasks[task_idx].priority, den: 1 }
}

/// One over the hours between `current_time` and the task's deadline that
/// no plan takes away, so that a nearer deadline scores higher; 0 where no
/// such hours are left.
pub fn deadline(scheduler: &Scheduler, current_time: i64, task_idx: TaskIdx) -> (r: Score)
    requires
        scheduler.wf(),
        task_idx < scheduler@.tasks.len(),
    ensures
        r == deadline_score(scheduler@, current_time, task_idx as int),
        r.den > 0,
{
    let tasks = scheduler.tasks();
    let task = &tasks[task_idx];
    assert(scheduler@.tasks[task_idx as int] == task@);
    let planned: u128 = scheduler.get_planned_hours(
        Interval::new(current_time, task.deadline),
    ).seconds;
    if task.deadline <= current_time {
        return Score { num: 0, den: 1 };
    }
    let total: u128 = (task.deadline as i128 - current_time as i128) as u128;
    if planned >= total {
        Score { num: 0, den: 1 }
    } else {
        Score { num: SECONDS_PER_HOUR, den: (total - planned) as u64 }
    }
}

/// The hours of work that the task still needs: more of it scores higher.
pub fn volume(scheduler: &Scheduler, current_time: i64, task_idx: TaskIdx) -> (r: Score)
    requires
        scheduler.wf(),
        task_idx < scheduler@.tasks.len(),
    ensures
        r == volume_score(scheduler@, task_idx as int),
        r.den > 0,
{
    let tasks = scheduler.tasks();
    assert(scheduler@.tasks[task_idx as int] == tasks@[task_idx as int]@);
    let wanted: u64 = tasks[task_idx].volume;
    let done: u128 = scheduler.get_total_task_hours(task_idx).seconds;
    if done >= wanted as u128 {
        Score { num: 0, den: SECONDS_PER_HOUR }
    } else {
        Score { num: wanted - done as u64, den: SECONDS_PER_HOUR }
    }
}

/// 2 for the task that was worked on last, 1 for the others.
pub fn locality(scheduler: &Scheduler, current_time: i64, task_idx: TaskIdx) -> (r: Score)
    requires
        scheduler.wf(),
        task_idx < scheduler@.tasks.len(),
    ensures
        r == locality_score(scheduler@, task_idx as int),
        r.den > 0,
{
    match scheduler.get_last_task() {
        Some(previous) => {
            if previous == task_idx {
                Score { num: 2, den: 1 }
            } else {
                Score { num: 1, den: 1 }
            }
        },
        None => Score { num: 1, den: 1 },
    }
}

impl Heuristic {
    /// The score that this heuristic gives the task at `current_time`.
    pub fn evaluate(&self, scheduler: &Scheduler, current_time: i64, task_idx: TaskIdx) -> (r:
        Score)
        requires
            scheduler.wf(),
            task_idx < scheduler@.tasks.len(),
        ensures
            r == heuristic_score(*self, scheduler@, current_time, task_idx as int),
            r.den > 0,
    {
        match self {
            Heuristic::Dependency => dependency(scheduler, current_time, task_idx),
            Heuristic::Priority => priority(scheduler, current_time, task_idx),
            Heuristic::Deadline => deadline(scheduler, current_time, task_idx),
            Heuristic::Volume => volume(scheduler, current_time, task_idx),
            Heuristic::Locality => locality(scheduler, current_time, task_idx),
        }
    }
}

/// The scores that the registered heuristics give the task, as the list of
/// their numerators and the list of their denominators.
pub fn factors(scheduler: &Scheduler, current_time: i64, task_idx: TaskIdx) -> (r: (
    Vec<u64>,
    Vec<u64>,
))
    requires
        scheduler.wf(),
        task_idx < scheduler@.tasks.len(),
    ensures
        r.0@ == score_nums(scheduler@, current_time, task_idx as int),
        r.1@ == score_dens(scheduler@, current_time, task_idx as int),
{
    let heuristics = scheduler.heuristics();
    let mut nums: Vec<u64> = Vec::new();
    let mut dens: Vec<u64> = Vec::new();
    let mut k: usize = 0;
    while k < heuristics.len()
        invariant
            scheduler.wf(),
            task_idx < scheduler@.tasks.len(),
            heuristics@ == scheduler@.heuristics,
            k <= heuristics.len(),
            nums@.len() == k,
            dens@.len() == k,
            forall|j: int|
                0 <= j < k ==> nums@[j] == heuristic_score(
                    heuristics@[j],
                    scheduler@,
                    current_time,
                    task_idx as int,
                ).num,
            forall|j: int|
                0 <= j < k ==> dens@[j] == heuristic_score(
                    heuristics@[j],
                    scheduler@,
                    current_time,
                    task_idx as int,
                ).den,
        decreases heuristics.len() - k,
    {
        let score = heuristics[k].evaluate(scheduler, current_time, task_idx);
        nums.push(score.num);
        dens.push(score.den);
        k += 1;
    }
    assert(nums@ =~= score_nums(scheduler@, current_time, task_idx as int));
    assert(dens@ =~= score_dens(scheduler@, current_time, task_idx as int));
    (nums, dens)
}

/// The task to work on at `current_time`, if any task has a combined score
/// above 0: the one with the greatest score, and of several such the first.
pub fn select(scheduler: &Scheduler, current_time: i64) -> (r: Option<TaskIdx>)
    requires
        scheduler.wf(),
    ensures
        match r {
            Some(idx) => is_chosen(scheduler@, current_time, idx as int),
            None => all_scores_zero(scheduler@, current_time),
        },
{
    let ghost v = scheduler@;
    let count: usize = scheduler.tasks().len();
    let mut best: Option<TaskIdx> = None;
    let mut best_nums: Vec<u64> = Vec::new();
    let mut best_dens: Vec<u64> = Vec::new();
    let mut idx: usize = 0;
    while idx < count
        invariant
            scheduler.wf(),
            v == scheduler@,
            count == v.tasks.len(),
            idx <= count,
            match best {
                Some(b) => {
                    &&& b < idx
                    &&& best_nums@ == score_nums(v, current_time, b as int)
                    &&& best_dens@ == score_dens(v, current_time, b as int)
                    &&& !scores_zero(v, current_time, b as int)
                    &&& forall|j: int| 0 <= j < b ==> #[trigger] outranks(v, current_time, b as int, j)
                    &&& forall|j: int|
                        b < j < idx ==> !#[trigger] outranks(v, current_time, j, b as int)
                },
                None => forall|j: int| 0 <= j < idx ==> #[trigger] scores_zero(v, current_time, j),
            },
        decreases count - idx,
    {
        let (nums, dens) = factors(scheduler, current_time, idx);
        proof {
            lemma_dens_positive(v, current_time, idx as int);
        }
        if !has_zero(&nums) {
            match best {
                None => {
                    proof {
                        assert forall|j: int| 0 <= j < idx implies #[trigger] outranks(
                            v,
                            current_time,
                            idx as int,
                            j,
                        ) by {
                            lemma_dens_positive(v, current_time, j);
                            assert(scores_zero(v, current_time, j));
                            let mine = product(score_nums(v, current_time, idx as int));
                            let theirs = product(score_dens(v, current_time, j));
                            assert(mine * theirs > 0) by (nonlinear_arith)
                                requires
                                    mine > 0,
                                    theirs > 0,
                            ;
                            assert(0 * product(score_dens(v, current_time, idx as int)) == 0)
                                by (nonlinear_arith);
                        }
                    }
                    best = Some(idx);
                    best_nums = nums;
                    best_dens = dens;
                },
                Some(b) => {
                    let mine = Natural::product_of(&nums, &best_dens);
                    let theirs = Natural::product_of(&best_nums, &dens);
                    if mine.exceeds(&theirs) {
                        proof {
                            assert(outranks(v, current_time, idx as int, b as int));
                            lemma_dens_positive(v, current_time, b as int);
                            assert forall|j: int| 0 <= j < idx implies #[trigger] outranks(
                                v,
                                current_time,
                                idx as int,
                                j,
                            ) by {
                                lemma_dens_positive(v, current_time, j);
                                if j < b {
                                    assert(outranks(v, current_time, b as int, j));
                                    lemma_outranks_flip(v, current_time, b as int, j);
                                }
                                if j != b {
                                    assert(!outranks(v, current_time, j, b as int));
                                    lemma_outranks_chain(
                                        product(score_nums(v, current_time, idx as int)),
                                        product(score_dens(v, current_time, idx as int)),
                                        product(score_nums(v, current_time, b as int)),
                                        product(score_dens(v, current_time, b as int)),
                                        product(score_nums(v, current_time, j)),
                                        product(score_dens(v, current_time, j)),
                                    );
                                }
                            }
                        }
                        best = Some(idx);
                        best_nums = nums;
                        best_dens = dens;
                    }
                },
            }
        } else {
            proof {
                if let Some(b) = best {
                    assert(0 * product(score_dens(v, current_time, b as int)) == 0)
                        by (nonlinear_arith);
                }
            }
        }
        idx += 1;
    }
    best
}

/// A task whose combined score is 0 outranks no task.
pub proof fn lemma_zero_never_outranks(v: SchedulerView, now: i64, zero: int, other: int)
    requires
        scores_zero(v, now, zero),
    ensures
        !outranks(v, now, zero, other),
{
    assert(0 * product(score_dens(v, now, other)) == 0) by (nonlinear_arith);
}

/// A task whose combined score is not 0 outranks every task whose combined
/// score is 0.
pub proof fn lemma_outranks_zero(v: SchedulerView, now: i64, idx: int, zero: int)
    requires
        v.wf(),
        0 <= idx < v.tasks.len(),
        0 <= zero < v.tasks.len(),
        !scores_zero(v, now, idx),
        scores_zero(v, now, zero),
    ensures
        outranks(v, now, idx, zero),
{
    lemma_dens_positive(v, now, zero);
    let mine = product(score_nums(v, now, idx));
    let theirs = product(score_dens(v, now, zero));
    assert(mine * theirs > 0) by (nonlinear_arith)
        requires
            mine > 0,
            theirs > 0,
    ;
    assert(0 * product(score_dens(v, now, idx)) == 0) by (nonlinear_arith);
}

/// A task that outranks the leader of the tasks before it outranks each of
/// them.
pub proof fn lemma_outranks_all(v: SchedulerView, now: i64, idx: int, leader: int, j: int)
    requires
        v.wf(),
        0 <= idx < v.tasks.len(),
        0 <= leader < idx,
        0 <= j < idx,
        outranks(v, now, idx, leader),
        j < leader ==> outranks(v, now, leader, j),
        j > leader ==> !outranks(v, now, j, leader),
    ensures
        outranks(v, now, idx, j),
{
    lemma_dens_positive(v, now, idx);
    lemma_dens_positive(v, now, leader);
    lemma_dens_positive(v, now, j);
    if j != leader {
        lemma_outranks_chain(
            product(score_nums(v, now, idx)),
            product(score_dens(v, now, idx)),
            product(score_nums(v, now, leader)),
            product(score_dens(v, now, leader)),
            product(score_nums(v, now, j)),
            product(score_dens(v, now, j)),
        );
    }
}

/// A product with a factor of 0 is 0.
pub proof fn lemma_factor_zero(factors: Seq<u64>, k: int)
    requires
        0 <= k < factors.len(),
        factors[k] == 0,
    ensures
        product(factors) == 0,
{
    let upto = factors.take(k + 1);
    assert(upto.drop_last() =~= factors.take(k));
    assert(upto.last() == factors[k]);
    assert(product(factors.take(k)) * 0 == 0) by (nonlinear_arith);
    lemma_zero_stays(factors, k + 1);
}

/// Where the volume heuristic is registered, a task whose combined score is
/// not 0 still needs work.
pub proof fn lemma_volume_needs_work(v: SchedulerView, now: i64, idx: int)
    requires
        v.heuristics.contains(Heuristic::Volume),
        !scores_zero(v, now, idx),
    ensures
        v.remaining(idx) > 0,
{
    let k = choose|k: int| 0 <= k < v.heuristics.len() && v.heuristics[k] == Heuristic::Volume;
    if v.remaining(idx) <= 0 {
        assert(score_nums(v, now, idx)[k] == volume_score(v, idx).num);
        lemma_factor_zero(score_nums(v, now, idx), k);
    }
}

/// Of two tasks at most one outranks the other.
proof fn lemma_outranks_flip(v: SchedulerView, now: i64, a: int, b: int)
    requires
        outranks(v, now, a, b),
    ensures
        !outranks(v, now, b, a),
{
}

} // verus!
