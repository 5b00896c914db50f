//! The allocator: it carves the next slot for a task out of the free time.

use crate::interval::Interval;
use crate::plans::{entry_views, lemma_prefix_wf, well_formed, PlanEntryView, Plans};
use crate::scheduler::Scheduler;
use crate::tasks::TaskIdx;
use vstd::prelude::*;

verus! {

/// Hands out slots of at most `granularity` seconds that keep clear of the
/// plans. A slot that is too long for the free time it falls in is cut down
/// to fit.
pub struct TaskAllocatorWithPlans {
    /// The longest slot, in seconds, that one step may take.
    pub granularity: i64,
    pub plans: Plans,
}

/// The slot to start from: it begins at `now` and is as long as the
/// granularity, or as the work that remains where that is less, and it is
/// cut at the end of the window. It never has a negative length.
pub open spec fn first_candidate(granularity: i64, window_end: i64, remaining: int, now: i64) -> Interval {
    let wanted = if remaining <= granularity {
        remaining
    } else {
        granularity as int
    };
    let length = if wanted < 0 {
        0
    } else {
        wanted
    };
    let end = if now + length <= window_end {
        now + length
    } else if now <= window_end {
        window_end as int
    } else {
        now as int
    };
    Interval { start: now, end: end as i64 }
}

/// The candidate after it has met the plan entry `taken`. Where the two do
/// not intersect it stays. Where it begins at or inside the entry it is
/// moved, with its length, to the end of the entry (and cut where the
/// machine's instants end). Otherwise it is cut at the start of the entry.
pub open spec fn dodge(candidate: Interval, taken: Interval) -> Interval {
    if !candidate.spec_intercepts(&taken) {
        candidate
    } else if candidate.start >= taken.start {
        let end = taken.end + candidate.spec_span();
        Interval {
            start: taken.end,
            end: if end <= i64::MAX {
                end as i64
            } else {
                i64::MAX
            },
        }
    } else {
        Interval { start: candidate.start, end: taken.start }
    }
}

/// The candidate after it has met every entry of `plans`, in order.
pub open spec fn sweep(plans: Seq<PlanEntryView>, candidate: Interval) -> Interval
    decreases plans.len(),
{
    if plans.len() == 0 {
        candidate
    } else {
        dodge(sweep(plans.drop_last(), candidate), plans.last().interval)
    }
}

/// `taken` begins before `limit` and ends after it.
pub open spec fn reaches_over(taken: Interval, limit: int) -> bool {
    taken.start < limit < taken.end
}

/// The place of the entry of `plans` that reaches over `limit`, if there is
/// one.
pub open spec fn cover(plans: Seq<PlanEntryView>, limit: int) -> Option<int>
    decreases plans.len(),
{
    if plans.len() == 0 {
        None
    } else if reaches_over(plans.last().interval, limit) {
        Some(plans.len() - 1)
    } else {
        cover(plans.drop_last(), limit)
    }
}

/// The instant that no slot may end after: the end of the window, or `now`
/// where the window has ended before.
pub open spec fn window_limit(window_end: i64, now: i64) -> i64 {
    if now <= window_end {
        window_end
    } else {
        now
    }
}

/// The slot as it is handed out, once it has met the plans: a slot that
/// ends at or before `limit` stays; one that begins before `limit` is cut
/// there; and one that has been moved to or past `limit` is empty, as nothing
/// is free before `limit`. The empty slot stands at `limit`; only where a
/// plan entry that begins after `now` reaches over `limit`, it stands at the
/// start of that entry.
pub open spec fn settled(
    plans: Seq<PlanEntryView>,
    limit: i64,
    now: i64,
    slot: Interval,
) -> Interval {
    if slot.end <= limit {
        slot
    } else if slot.start < limit {
        Interval { start: slot.start, end: limit }
    } else {
        let at = match cover(plans, limit as int) {
            Some(c) => if plans[c].interval.start > now {
                plans[c].interval.start
            } else {
                limit
            },
            None => limit,
        };
        Interval { start: at, end: at }
    }
}

/// The slot that a task with `remaining` seconds of work gets at `now`.
pub open spec fn allocation(
    plans: Seq<PlanEntryView>,
    granularity: i64,
    window_end: i64,
    remaining: int,
    now: i64,
) -> Interval {
    settled(
        plans,
        window_limit(window_end, now),
        now,
        sweep(plans, first_candidate(granularity, window_end, remaining, now)),
    )
}

/// The slot is the empty slot at `limit`, and `taken` covers `now` and
/// reaches over `limit`: nothing is free from `now` to `limit`, and the
/// empty slot at `limit` holds no instant of `taken`.
pub open spec fn is_walled_in(slot: Interval, taken: Interval, limit: i64, now: i64) -> bool {
    &&& taken.start <= now
    &&& limit < taken.end
    &&& slot.start == limit
    &&& slot.end == limit
}

/// No entry of `plans` begins at or before `now` and ends after it.
pub open spec fn is_free(plans: Seq<PlanEntryView>, now: i64) -> bool {
    forall|i: int|
        0 <= i < plans.len() ==> !((#[trigger] plans[i]).interval.start <= now
            < plans[i].interval.end)
}

/// What a sweep over a well-formed plan set keeps of a well-formed
/// candidate: the result is well formed and no longer than the candidate,
/// it does not begin before the candidate, it intersects no entry, and it
/// begins where the candidate began unless an entry covered that instant,
/// in which case it was only cut.
pub proof fn lemma_sweep(plans: Seq<PlanEntryView>, candidate: Interval)
    requires
        well_formed(plans),
        candidate.wf(),
    ensures
        sweep(plans, candidate).wf(),
        sweep(plans, candidate).spec_span() <= candidate.spec_span(),
        sweep(plans, candidate).start >= candidate.start,
        forall|i: int|
            0 <= i < plans.len() ==> !sweep(plans, candidate).spec_intercepts(
                &(#[trigger] plans[i]).interval,
            ),
        sweep(plans, candidate).start == candidate.start ==> sweep(plans, candidate).end
            <= candidate.end,
        sweep(plans, candidate).start != candidate.start ==> exists|i: int|
            0 <= i < plans.len() && (#[trigger] plans[i]).interval.end == sweep(
                plans,
                candidate,
            ).start,
        is_free(plans, candidate.start) ==> sweep(plans, candidate).start == candidate.start,
        candidate.start < candidate.end ==> sweep(plans, candidate).end > candidate.start,
    decreases plans.len(),
{
    if plans.len() > 0 {
        let head = plans.drop_last();
        let top = plans.last().interval;
        assert(plans[plans.len() - 1] == plans.last());
        assert(head =~= plans.take(plans.len() - 1));
        lemma_prefix_wf(plans, plans.len() - 1);
        lemma_sweep(head, candidate);
        let before = sweep(head, candidate);
        let after = sweep(plans, candidate);
        assert(after == dodge(before, top));
        assert(top.wf());
        assert forall|i: int| 0 <= i < plans.len() implies !after.spec_intercepts(
            &(#[trigger] plans[i]).interval,
        ) by {
            if i < head.len() {
                assert(head[i] == plans[i]);
                assert(!before.spec_intercepts(&head[i].interval));
                assert(plans[i].interval.spec_precedes(&plans[plans.len() - 1].interval));
            }
        }
        if before.start != candidate.start {
            let i = choose|i: int|
                0 <= i < head.len() && (#[trigger] head[i]).interval.end == before.start;
            assert(head[i] == plans[i]);
        }
        if is_free(plans, candidate.start) {
            assert forall|i: int| 0 <= i < head.len() implies !((#[trigger] head[i]).interval.start
                <= candidate.start < head[i].interval.end) by {
                assert(head[i] == plans[i]);
            }
        }
    }
}

/// Where `cover` finds an entry, that entry reaches over `limit`; where it
/// finds none, no entry does.
pub proof fn lemma_cover(plans: Seq<PlanEntryView>, limit: int)
    ensures
        match cover(plans, limit) {
            Some(c) => 0 <= c < plans.len() && reaches_over(plans[c].interval, limit),
            None => forall|i: int|
                0 <= i < plans.len() ==> !reaches_over((#[trigger] plans[i]).interval, limit),
        },
    decreases plans.len(),
{
    if plans.len() > 0 {
        assert(plans[plans.len() - 1] == plans.last());
        if !reaches_over(plans.last().interval, limit) {
            let head = plans.drop_last();
            lemma_cover(head, limit);
            match cover(head, limit) {
                Some(c) => {
                    assert(head[c] == plans[c]);
                },
                None => {
                    assert forall|i: int| 0 <= i < plans.len() implies !reaches_over(
                        (#[trigger] plans[i]).interval,
                        limit,
                    ) by {
                        if i < head.len() {
                            assert(head[i] == plans[i]);
                        }
                    }
                },
            }
        }
    }
}

/// What settling keeps of a slot that has met the plans: the result is well
/// formed, no longer than the slot, does not begin before `now`, ends at or
/// before `limit`, and meets no plan entry, but for the one case in which
/// that cannot be had.
pub proof fn lemma_settled(plans: Seq<PlanEntryView>, limit: i64, now: i64, slot: Interval)
    requires
        well_formed(plans),
        slot.wf(),
        now <= slot.start,
        now <= limit,
        forall|i: int| 0 <= i < plans.len() ==> !slot.spec_intercepts(&(#[trigger] plans[i]).interval),
    ensures
        ({
            let r = settled(plans, limit, now, slot);
            &&& r.wf()
            &&& r.start >= now
            &&& r.end <= limit
            &&& r.spec_span() <= slot.spec_span()
            &&& slot.end <= limit ==> r == slot
            &&& forall|i: int|
                0 <= i < plans.len() ==> !r.spec_intercepts(&(#[trigger] plans[i]).interval)
                    || is_walled_in(r, plans[i].interval, limit, now)
        }),
{
    let r = settled(plans, limit, now, slot);
    if slot.end > limit && slot.start >= limit {
        lemma_cover(plans, limit as int);
        match cover(plans, limit as int) {
            Some(c) => {
                assert forall|i: int| 0 <= i < plans.len() implies !r.spec_intercepts(
                    &(#[trigger] plans[i]).interval,
                ) || is_walled_in(r, plans[i].interval, limit, now) by {
                    assert(plans[c].interval.wf());
                    assert(plans[i].interval.wf());
                    if i < c {
                        assert(plans[i].interval.spec_precedes(&plans[c].interval));
                    } else if i > c {
                        assert(plans[c].interval.spec_precedes(&plans[i].interval));
                    }
                }
            },
            None => {
                assert forall|i: int| 0 <= i < plans.len() implies !r.spec_intercepts(
                    &(#[trigger] plans[i]).interval,
                ) by {
                    assert(!reaches_over(plans[i].interval, limit as int));
                }
            },
        }
    }
}

/// What holds of every slot that is handed out over a well-formed plan
/// set. Its length is not negative, not above the granularity, and not above
/// the work that remains; it does not begin before `now`; and where `now` is
/// inside the window, the slot ends inside the window. Where no entry covers
/// `now` the slot begins there.
///
/// The slot meets no plan entry. The one exception is the empty slot at the
/// end of the window where an entry covers `now` and reaches over the end of
/// the window: there nothing is free, and the empty slot holds no instant
/// of the entry. Where work remains and the window is still open, the slot
/// ends after `now`.
pub proof fn lemma_allocation(
    plans: Seq<PlanEntryView>,
    granularity: i64,
    window_end: i64,
    remaining: int,
    now: i64,
)
    requires
        well_formed(plans),
    ensures
        ({
            let slot = allocation(plans, granularity, window_end, remaining, now);
            &&& slot.wf()
            &&& slot.start >= now
            &&& slot.spec_span() <= granularity || slot.spec_span() == 0
            &&& slot.spec_span() <= remaining || slot.spec_span() == 0
            &&& now <= window_end ==> slot.end <= window_end
            &&& forall|i: int|
                0 <= i < plans.len() ==> !slot.spec_intercepts(&(#[trigger] plans[i]).interval)
                    || is_walled_in(
                    slot,
                    plans[i].interval,
                    window_limit(window_end, now),
                    now,
                )
            &&& (forall|i: int|
                0 <= i < plans.len() ==> !((#[trigger] plans[i]).interval.start <= now
                    && window_end < plans[i].interval.end)) ==> forall|i: int|
                0 <= i < plans.len() ==> !slot.spec_intercepts(&(#[trigger] plans[i]).interval)
            &&& is_free(plans, now) ==> slot.start == now
            &&& granularity > 0 && remaining > 0 && now < window_end ==> slot.end > now
        }),
{
    let first = first_candidate(granularity, window_end, remaining, now);
    lemma_sweep(plans, first);
    let met = sweep(plans, first);
    let limit = window_limit(window_end, now);
    lemma_settled(plans, limit, now, met);
    let slot = settled(plans, limit, now, met);
    if forall|i: int|
        0 <= i < plans.len() ==> !((#[trigger] plans[i]).interval.start <= now && window_end
            < plans[i].interval.end) {
        assert forall|i: int| 0 <= i < plans.len() implies !slot.spec_intercepts(
            &(#[trigger] plans[i]).interval,
        ) by {
            assert(!is_walled_in(slot, plans[i].interval, limit, now));
        }
    }
}

impl TaskAllocatorWithPlans {
    /// The next slot for task `task_idx` at `current_time`.
    ///
    /// The slot never has a negative length, is never longer than the
    /// granularity nor than the work that remains of the task, and never
    /// ends after the window. A slot that would begin inside a plan entry is
    /// moved behind it, and cut at the end of the window. Where nothing is
    /// free before the window ends, the slot is empty and stands at the end
    /// of the window, so that the cursor moves there.
    ///
    /// The slot meets no plan entry, with one exception: where an entry
    /// covers `current_time` and reaches over the end of the window, the
    /// empty slot at the end of the window lies inside that entry.
    pub fn allocate(&self, scheduler: &Scheduler, current_time: i64, task_idx: TaskIdx) -> (r:
        Interval)
        requires
            scheduler.wf(),
            task_idx < scheduler@.tasks.len(),
        ensures
            r == allocation(
                self.plans@,
                self.granularity,
                scheduler@.window.end,
                scheduler@.remaining(task_idx as int),
                current_time,
            ),
            r.wf(),
            r.start >= current_time,
            r.spec_span() <= self.granularity || r.spec_span() == 0,
            r.spec_span() <= scheduler@.remaining(task_idx as int) || r.spec_span() == 0,
            current_time <= scheduler@.window.end ==> r.end <= scheduler@.window.end,
            forall|i: int|
                0 <= i < self.plans@.len() ==> !r.spec_intercepts(
                    &(#[trigger] self.plans@[i]).interval,
                ) || is_walled_in(
                    r,
                    self.plans@[i].interval,
                    window_limit(scheduler@.window.end, current_time),
                    current_time,
                ),
            (forall|i: int|
                0 <= i < self.plans@.len() ==> !((#[trigger] self.plans@[i]).interval.start
                    <= current_time && scheduler@.window.end < self.plans@[i].interval.end))
                ==> forall|i: int|
                0 <= i < self.plans@.len() ==> !r.spec_intercepts(
                    &(#[trigger] self.plans@[i]).interval,
                ),
            is_free(self.plans@, current_time) ==> r.start == current_time,
            self.granularity > 0 && scheduler@.remaining(task_idx as int) > 0 && current_time
                < scheduler@.window.end ==> r.end > current_time,
    {
        proof {
            use_type_invariant(&self.plans);
        }
        let tasks = scheduler.tasks();
        assert(scheduler@.tasks[task_idx as int] == tasks@[task_idx as int]@);
        let wanted: u64 = tasks[task_idx].volume;
        let done: u128 = scheduler.get_total_task_hours(task_idx).seconds;
        let window_end: i64 = scheduler.interval().end;
        let ghost remaining = scheduler@.remaining(task_idx as int);
        // The length to ask for: the granularity, or what remains if less.
        let mut length: i128 = if self.granularity < 0 {
            0
        } else {
            self.granularity as i128
        };
        if done >= wanted as u128 {
            length = 0;
        } else {
            let left: u128 = wanted as u128 - done;
            if left <= length as u128 {
                length = left as i128;
            }
        }
        let reach: i128 = current_time as i128 + length;
        let end: i64 = if reach <= window_end as i128 {
            reach as i64
        } else if current_time <= window_end {
            window_end
        } else {
            current_time
        };
        let mut candidate = Interval::new(current_time, end);
        let ghost first = candidate;
        assert(first == first_candidate(self.granularity, window_end, remaining, current_time));
        let entries = self.plans.entries();
        let ghost plans = self.plans@;
        let mut index: usize = 0;
        assert(plans.take(0) =~= Seq::<PlanEntryView>::empty());
        while index < entries.len()
            invariant
                index <= entries.len(),
                plans == entry_views(entries@),
                well_formed(plans),
                first.wf(),
                candidate == sweep(plans.take(index as int), first),
            decreases entries.len() - index,
        {
            let taken = entries[index].interval;
            proof {
                let upto = plans.take(index as int + 1);
                assert(upto.drop_last() =~= plans.take(index as int));
                assert(upto.last().interval == taken);
            }
            if candidate.intercepts(&taken) {
                if candidate.start >= taken.start {
                    let span: i128 = candidate.end as i128 - candidate.start as i128;
                    let moved: i128 = taken.end as i128 + span;
                    let moved_end: i64 = if moved <= i64::MAX as i128 && moved >= i64::MIN as i128 {
                        moved as i64
                    } else {
                        i64::MAX
                    };
                    proof {
                        lemma_prefix_wf(plans, index as int);
                        lemma_sweep(plans.take(index as int), first);
                        assert(plans[index as int].interval.wf());
                    }
                    candidate = Interval::new(taken.end, moved_end);
                } else {
                    candidate = Interval::new(candidate.start, taken.start);
                }
            }
            index += 1;
        }
        proof {
            assert(plans.take(index as int) =~= plans);
            lemma_allocation(plans, self.granularity, window_end, remaining, current_time);
        }
        let limit: i64 = if current_time <= window_end {
            window_end
        } else {
            current_time
        };
        if candidate.end <= limit {
            return candidate;
        }
        if candidate.start < limit {
            return Interval::new(candidate.start, limit);
        }
        // Nothing is free up to the limit: the slot is empty.
        let mut at: i64 = limit;
        let mut index: usize = 0;
        assert(plans.take(0) =~= Seq::<PlanEntryView>::empty());
        while index < entries.len()
            invariant
                index <= entries.len(),
                plans == entry_views(entries@),
                at == match cover(plans.take(index as int), limit as int) {
                    Some(c) => if plans[c].interval.start > current_time {
                        plans[c].interval.start
                    } else {
                        limit
                    },
                    None => limit,
                },
            decreases entries.len() - index,
        {
            let taken = entries[index].interval;
            proof {
                let upto = plans.take(index as int + 1);
                assert(upto.drop_last() =~= plans.take(index as int));
                assert(upto.last().interval == taken);
                lemma_cover(plans.take(index as int), limit as int);
                if cover(plans.take(index as int), limit as int) is Some {
                    let c = cover(plans.take(index as int), limit as int)->0;
                    assert(plans.take(index as int)[c] == plans[c]);
                }
            }
            if taken.start < limit && limit < taken.end {
                at = if taken.start > current_time {
                    taken.start
                } else {
                    limit
                };
            }
            index += 1;
        }
        assert(plans.take(index as int) =~= plans);
        Interval::new(at, at)
    }
}

} // verus!
