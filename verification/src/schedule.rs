//! The schedule: what was committed and what was planned, day by day.

use crate::calendar::{
    day_start, in_calendar, is_clock, is_date, local_clock_text, local_date_text,
};
use crate::group_by::{
    flattened, grouped, lemma_grouped_flattened, lemma_map_multiset, GroupBy,
};
use crate::interval::Interval;
use crate::plans::{entry_views, PlanEntry, PlanEntryView};
use crate::scheduler::{Scheduler, SchedulerView};
use vstd::multiset::Multiset;
use vstd::prelude::*;
use vstd::string::StringExecFns;

verus! {

/// One line of a day: an interval, the clock times that it runs between,
/// and what it is for.
pub struct ScheduleEntry {
    pub interval: Interval,
    /// The start and the end on the clock, as `HH:MM - HH:MM`. An end at
    /// midnight is written `24:00`.
    pub label: String,
    pub description: String,
}

/// One day of the schedule.
pub struct ScheduleDay {
    /// The instant at which the day begins.
    pub start: i64,
    /// The date of the day, as `YYYY-MM-DD`.
    pub date: String,
    /// The entries that begin on the day, in order of their start.
    pub entries: Vec<ScheduleEntry>,
}

/// The committed intervals of all tasks together with the plans, grouped
/// by the day on which they begin.
pub struct Schedule {
    pub days: Vec<ScheduleDay>,
}

/// Why a schedule could not be drawn up.
#[derive(Clone, Copy, Debug, PartialEq, Eq, Structural)]
pub enum ScheduleError {
    /// The calendar cannot hold an instant of the schedule.
    Calendar,
}

/// An entry together with the start of the day on which it begins.
pub struct Dated {
    pub day: i64,
    pub entry: PlanEntry,
}

/// The interval and the description of an entry of the schedule.
pub open spec fn entry_of(entry: ScheduleEntry) -> PlanEntryView {
    PlanEntryView { interval: entry.interval, description: entry.description@ }
}

/// The intervals and descriptions of the entries of a day, in order.
pub open spec fn day_entries(entries: Seq<ScheduleEntry>) -> Seq<PlanEntryView> {
    entries.map_values(|e: ScheduleEntry| entry_of(e))
}

/// The intervals and descriptions of all the entries of the days, each as
/// often as it occurs.
pub open spec fn all_entries(days: Seq<ScheduleDay>) -> Multiset<PlanEntryView>
    decreases days.len(),
{
    if days.len() == 0 {
        Multiset::empty()
    } else {
        all_entries(days.drop_last()).add(day_entries(days.last().entries@).to_multiset())
    }
}

/// The committed intervals of one task, each with the task's description.
pub open spec fn task_entries(description: Seq<char>, list: Seq<Interval>) -> Seq<PlanEntryView> {
    Seq::new(list.len(), |k: int| PlanEntryView { interval: list[k], description })
}

/// The committed intervals of the first `upto` tasks.
pub open spec fn committed_entries(v: SchedulerView, upto: int) -> Seq<PlanEntryView>
    decreases upto,
{
    if upto <= 0 {
        Seq::empty()
    } else {
        committed_entries(v, upto - 1) + task_entries(
            v.tasks[upto - 1].description,
            v.committed[upto - 1],
        )
    }
}

/// All that a schedule lists: the committed intervals of every task, and
/// the plans.
pub open spec fn listed(v: SchedulerView) -> Seq<PlanEntryView> {
    committed_entries(v, v.tasks.len() as int) + v.plans
}

/// The entries without their days.
pub open spec fn undated(items: Seq<Dated>) -> Seq<PlanEntryView> {
    items.map_values(|d: Dated| d.entry@)
}

/// The entries, each with its day.
pub open spec fn with_days(items: Seq<Dated>) -> Seq<(i64, PlanEntryView)> {
    items.map_values(|d: Dated| (d.day, d.entry@))
}

/// The entries of one day, each with the day.
pub open spec fn day_pairs(day: i64, entries: Seq<PlanEntry>) -> Seq<(i64, PlanEntryView)> {
    entry_views(entries).map_values(|e: PlanEntryView| (day, e))
}

/// All the entries of the days, each with the day under which it stands and
/// as often as it occurs.
pub open spec fn all_pairs(days: Seq<(i64, Vec<PlanEntry>)>) -> Multiset<(i64, PlanEntryView)>
    decreases days.len(),
{
    if days.len() == 0 {
        Multiset::empty()
    } else {
        all_pairs(days.drop_last()).add(day_pairs(days.last().0, days.last().1@).to_multiset())
    }
}

/// All the entries of the days, without the days.
pub open spec fn all_listed(days: Seq<(i64, Vec<PlanEntry>)>) -> Multiset<PlanEntryView>
    decreases days.len(),
{
    if days.len() == 0 {
        Multiset::empty()
    } else {
        all_listed(days.drop_last()).add(entry_views(days.last().1@).to_multiset())
    }
}

/// The entries of a day stand in order of their start.
pub open spec fn in_order(entries: Seq<PlanEntryView>) -> bool {
    forall|i: int, j: int|
        0 <= i < j < entries.len() ==> entries[i].interval.start <= entries[j].interval.start
}

/// The label of an end on the clock: midnight, which the clock shows as
/// `00:00`, is written `24:00`.
pub open spec fn end_label_of(clock: Seq<char>) -> Seq<char> {
    if clock == seq!['0', '0', ':', '0', '0'] {
        seq!['2', '4', ':', '0', '0']
    } else {
        clock
    }
}

/// The label of an interval that the clock shows to run from `from` to
/// `until`.
pub open spec fn label_of(from: Seq<char>, until: Seq<char>) -> Seq<char> {
    from + seq![' ', '-', ' '] + end_label_of(until)
}

/// `label` is the label of an interval between two clock times.
pub open spec fn is_label(label: Seq<char>) -> bool {
    exists|from: Seq<char>, until: Seq<char>|
        is_clock(from) && is_clock(until) && label == #[trigger] label_of(from, until)
}

/// The label of an end on the clock.
pub fn end_label(clock: String) -> (r: String)
    ensures
        r@ == end_label_of(clock@),
{
    let midnight = String::from_str("00:00");
    proof {
        reveal_strlit("00:00");
        reveal_strlit("24:00");
        assert("00:00"@ =~= seq!['0', '0', ':', '0', '0']);
        assert("24:00"@ =~= seq!['2', '4', ':', '0', '0']);
    }
    if clock == midnight {
        String::from_str("24:00")
    } else {
        clock
    }
}

/// The calendar can hold the start and the end of every entry.
pub open spec fn all_in_calendar(entries: Seq<PlanEntryView>) -> bool {
    forall|i: int|
        0 <= i < entries.len() ==> in_calendar((#[trigger] entries[i]).interval.start as int)
            && in_calendar(entries[i].interval.end as int)
}

/// The entry `(interval, description)` with the day that the calendar gave
/// for its start, or the error where it gave none.
fn dated(day: Option<i64>, interval: Interval, description: String) -> (r: Result<
    Dated,
    ScheduleError,
>)
    ensures
        match day {
            Some(start) => r matches Ok(item) && item == (Dated {
                day: start,
                entry: PlanEntry { interval, description },
            }),
            None => r matches Err(e) && e == ScheduleError::Calendar,
        },
{
    match day {
        Some(start) => Ok(Dated { day: start, entry: PlanEntry { interval, description } }),
        None => Err(ScheduleError::Calendar),
    }
}

/// Adds to `all` the entry `(interval, description)` with its day: the
/// start of the day on which the interval begins in the machine's time
/// zone. Where the calendar gives no day, as it does for every start that
/// it cannot hold, nothing is added.
fn add_dated(all: &mut Vec<Dated>, interval: Interval, description: String) -> (r: Result<
    (),
    ScheduleError,
>)
    ensures
        match r {
            Ok(_) => {
                &&& in_calendar(interval.start as int)
                &&& final(all)@.len() == old(all)@.len() + 1
                &&& final(all)@.drop_last() == old(all)@
                &&& final(all)@.last().entry == (PlanEntry { interval, description })
                &&& undated(final(all)@) == undated(old(all)@).push(
                    PlanEntryView { interval, description: description@ },
                )
            },
            Err(e) => e == ScheduleError::Calendar && final(all)@ == old(all)@,
        },
{
    let day: Option<i64> = match day_start(interval.start) {
        Ok(day) => Some(day),
        Err(_) => None,
    };
    let item = match dated(day, interval, description) {
        Ok(item) => item,
        Err(e) => {
            return Err(e);
        },
    };
    let ghost before = all@;
    all.push(item);
    assert(all@.drop_last() =~= before);
    assert(undated(all@) =~= undated(before).push(
        PlanEntryView { interval, description: description@ },
    ));
    Ok(())
}

/// A copy of `items` in order of the start of their intervals.
fn sort_by_start(items: &Vec<Dated>) -> (r: Vec<PlanEntry>)
    ensures
        entry_views(r@).to_multiset() == undated(items@).to_multiset(),
        in_order(entry_views(r@)),
{
    broadcast use vstd::seq_lib::group_to_multiset_ensures;

    let mut rest: Vec<PlanEntry> = Vec::new();
    let mut i: usize = 0;
    while i < items.len()
        invariant
            i <= items.len(),
            entry_views(rest@) == undated(items@.take(i as int)),
        decreases items.len() - i,
    {
        let ghost held = entry_views(rest@);
        rest.push(
            PlanEntry {
                interval: items[i].entry.interval,
                description: items[i].entry.description.clone(),
            },
        );
        assert(entry_views(rest@) =~= held.push(items@[i as int].entry@));
        assert(undated(items@.take(i as int + 1)) =~= undated(items@.take(i as int)).push(
            items@[i as int].entry@,
        ));
        i += 1;
    }
    assert(items@.take(i as int) =~= items@);
    let ghost all = entry_views(rest@);
    let mut out: Vec<PlanEntry> = Vec::new();
    assert(entry_views(out@).to_multiset().add(entry_views(rest@).to_multiset()) =~= all.to_multiset());
    while rest.len() > 0
        invariant
            entry_views(out@).to_multiset().add(entry_views(rest@).to_multiset())
                == all.to_multiset(),
            in_order(entry_views(out@)),
            forall|a: int, b: int|
                0 <= a < out@.len() && 0 <= b < rest@.len() ==> (#[trigger] out@[a]).interval.start
                    <= (#[trigger] rest@[b]).interval.start,
        decreases rest.len(),
    {
        let mut least: usize = 0;
        let mut k: usize = 1;
        while k < rest.len()
            invariant
                least < rest.len(),
                k <= rest.len(),
                least < k,
                forall|b: int|
                    0 <= b < k && b < rest@.len() ==> rest@[least as int].interval.start <= (
                    #[trigger] rest@[b]).interval.start,
            decreases rest.len() - k,
        {
            if rest[k].interval.start < rest[least].interval.start {
                least = k;
            }
            k += 1;
        }
        let ghost left = entry_views(rest@);
        let ghost done = entry_views(out@);
        let ghost before = rest@;
        let next = rest.remove(least);
        out.push(next);
        proof {
            assert(entry_views(rest@) =~= left.remove(least as int));
            assert(entry_views(out@) =~= done.push(left[least as int]));
            vstd::seq_lib::to_multiset_remove(left, least as int);
            vstd::seq_lib::to_multiset_build(done, left[least as int]);
            left.to_multiset_ensures();
            assert(left.contains(left[least as int]));
            assert(left.to_multiset().count(left[least as int]) > 0);
            assert(entry_views(out@).to_multiset().add(entry_views(rest@).to_multiset())
                =~= done.to_multiset().add(left.to_multiset()));
            assert forall|a: int, b: int|
                0 <= a < out@.len() && 0 <= b < rest@.len() implies (
            #[trigger] out@[a]).interval.start <= (#[trigger] rest@[b]).interval.start by {
                let from = if b < least { b } else { b + 1 };
                assert(rest@[b] == before[from]);
                if a == out@.len() - 1 {
                    assert(out@[a] == before[least as int]);
                }
            }
            assert forall|a: int, b: int| 0 <= a < b < out@.len() implies entry_views(
                out@,
            )[a].interval.start <= entry_views(out@)[b].interval.start by {
                if b == out@.len() - 1 {
                    assert(out@[b] == before[least as int]);
                    assert(out@[a].interval.start <= before[least as int].interval.start);
                } else {
                    assert(done[a].interval.start <= done[b].interval.start);
                }
            }
        }
    }
    assert(entry_views(rest@) =~= Seq::<PlanEntryView>::empty());
    assert(entry_views(out@).to_multiset().add(entry_views(rest@).to_multiset())
        =~= entry_views(out@).to_multiset());
    out
}

/// The day of an entry.
pub fn day_of(item: &Dated) -> (day: i64)
    ensures
        day == item.day,
{
    item.day
}

/// The entries by their days: every entry stands under its own day, the
/// days stand in ascending order, and the entries of a day in order of their
/// start.
pub fn group_days(items: Vec<Dated>) -> (r: Vec<(i64, Vec<PlanEntry>)>)
    ensures
        all_pairs(r@) == with_days(items@).to_multiset(),
        all_listed(r@) == undated(items@).to_multiset(),
        items@.len() == 0 ==> r@.len() == 0,
        forall|a: int, b: int| 0 <= a < b < r@.len() ==> r@[a].0 < r@[b].0,
        forall|a: int|
            0 <= a < r@.len() ==> (#[trigger] r@[a]).1@.len() > 0 && in_order(
                entry_views(r@[a].1@),
            ),
{
    let ghost all = items@;
    let groups = items.group_by(day_of);
    proof {
        lemma_grouped_flattened(groups@);
        lemma_map_multiset(flattened(groups@), all, |d: Dated| d.entry@);
        lemma_map_multiset(flattened(groups@), all, |d: Dated| (d.day, d.entry@));
    }
    let mut days: Vec<(i64, Vec<PlanEntry>)> = Vec::new();
    let mut g: usize = 0;
    proof {
        assert(groups@.take(0) =~= Seq::<(i64, Vec<Dated>)>::empty());
        undated(flattened(groups@.take(0))).to_multiset_ensures();
        with_days(flattened(groups@.take(0))).to_multiset_ensures();
        assert(undated(flattened(groups@.take(0))).to_multiset() =~= Multiset::<
            PlanEntryView,
        >::empty());
        assert(with_days(flattened(groups@.take(0))).to_multiset() =~= Multiset::<
            (i64, PlanEntryView),
        >::empty());
    }
    while g < groups.len()
        invariant
            g <= groups.len(),
            days@.len() == g,
            forall|a: int, b: int| 0 <= a < b < groups@.len() ==> groups@[a].0 < groups@[b].0,
            forall|a: int| 0 <= a < groups@.len() ==> (#[trigger] groups@[a]).1@.len() > 0,
            forall|a: int, i: int|
                0 <= a < groups@.len() && 0 <= i < groups@[a].1@.len() ==> (
                #[trigger] groups@[a].1@[i]).day == groups@[a].0,
            forall|d: int| 0 <= d < g ==> (#[trigger] days@[d]).0 == groups@[d].0,
            all_listed(days@) == undated(flattened(groups@.take(g as int))).to_multiset(),
            all_pairs(days@) == with_days(flattened(groups@.take(g as int))).to_multiset(),
            forall|d: int|
                0 <= d < g ==> (#[trigger] days@[d]).1@.len() > 0 && in_order(
                    entry_views(days@[d].1@),
                ),
        decreases groups.len() - g,
    {
        let day: i64 = groups[g].0;
        let sorted = sort_by_start(&groups[g].1);
        let ghost held = days@;
        let ghost sorted_views = entry_views(sorted@);
        days.push((day, sorted));
        proof {
            let upto = groups@.take(g as int + 1);
            assert(upto.drop_last() =~= groups@.take(g as int));
            assert(upto.last() == groups@[g as int]);
            let low = flattened(groups@.take(g as int));
            let members = groups@[g as int].1@;
            assert(days@.drop_last() =~= held);
            assert(undated(low + members) =~= undated(low) + undated(members));
            vstd::seq_lib::lemma_multiset_commutative(undated(low), undated(members));
            assert(with_days(low + members) =~= with_days(low) + with_days(members));
            vstd::seq_lib::lemma_multiset_commutative(with_days(low), with_days(members));
            lemma_map_multiset(sorted_views, undated(members), |e: PlanEntryView| (day, e));
            assert(with_days(members) =~= undated(members).map_values(
                |e: PlanEntryView| (day, e),
            )) by {
                assert forall|i: int| 0 <= i < members.len() implies with_days(members)[i] == (
                    day,
                    undated(members)[i],
                ) by {
                    assert(groups@[g as int].1@[i].day == day);
                }
            }
            assert(day_pairs(day, sorted@) =~= sorted_views.map_values(
                |e: PlanEntryView| (day, e),
            ));
            sorted_views.to_multiset_ensures();
            undated(members).to_multiset_ensures();
            assert(members.len() > 0);
        }
        g += 1;
    }
    proof {
        assert(groups@.take(g as int) =~= groups@);
    }
    days
}

/// The entry of the schedule for an interval that the clock shows to run
/// from `from` to `shown`.
pub fn labelled(interval: Interval, description: String, from: String, shown: String) -> (r:
    ScheduleEntry)
    ensures
        r.interval == interval,
        r.description == description,
        r.label@ == label_of(from@, shown@),
{
    let until = end_label(shown);
    proof {
        reveal_strlit(" - ");
        assert(" - "@ =~= seq![' ', '-', ' ']);
    }
    let label = from.concat(" - ").concat(until.as_str());
    ScheduleEntry { interval, label, description }
}

/// The entries of a day with their labels, in the same order. There are
/// none where the calendar cannot hold the start or the end of an entry,
/// and only there.
fn label_entries(sorted: &Vec<PlanEntry>) -> (r: Result<Vec<ScheduleEntry>, ScheduleError>)
    ensures
        r is Ok <==> all_in_calendar(entry_views(sorted@)),
        match r {
            Ok(entries) => {
                &&& day_entries(entries@) == entry_views(sorted@)
                &&& forall|e: int| 0 <= e < entries@.len() ==> is_label((#[trigger] entries@[e]).label@)
            },
            Err(e) => e == ScheduleError::Calendar,
        },
{
    let mut entries: Vec<ScheduleEntry> = Vec::new();
    let mut i: usize = 0;
    while i < sorted.len()
        invariant
            i <= sorted.len(),
            day_entries(entries@) == entry_views(sorted@).take(i as int),
            forall|e: int| 0 <= e < entries@.len() ==> is_label((#[trigger] entries@[e]).label@),
            forall|j: int|
                0 <= j < i ==> in_calendar((#[trigger] entry_views(sorted@)[j]).interval.start as int)
                    && in_calendar(entry_views(sorted@)[j].interval.end as int),
        decreases sorted.len() - i,
    {
        let interval = sorted[i].interval;
        assert(entry_views(sorted@)[i as int].interval == interval);
        let from = match local_clock_text(interval.start) {
            Ok(from) => from,
            Err(_) => {
                return Err(ScheduleError::Calendar);
            },
        };
        let shown = match local_clock_text(interval.end) {
            Ok(shown) => shown,
            Err(_) => {
                return Err(ScheduleError::Calendar);
            },
        };
        let ghost held = day_entries(entries@);
        let ghost before = entries@;
        let entry = labelled(interval, sorted[i].description.clone(), from, shown);
        entries.push(entry);
        assert forall|e: int| 0 <= e < entries@.len() implies is_label(
            (#[trigger] entries@[e]).label@,
        ) by {
            if e < before.len() {
                assert(entries@[e] == before[e]);
            }
        }
        assert(day_entries(entries@) =~= held.push(sorted@[i as int]@));
        assert(entry_views(sorted@).take(i as int + 1) =~= entry_views(sorted@).take(
            i as int,
        ).push(sorted@[i as int]@));
        i += 1;
    }
    assert(entry_views(sorted@).take(i as int) =~= entry_views(sorted@));
    Ok(entries)
}

/// What the first tasks hold is among what more tasks hold.
proof fn lemma_committed_entries_grow(v: SchedulerView, fewer: int, more: int)
    requires
        0 <= fewer <= more,
    ensures
        committed_entries(v, fewer).len() <= committed_entries(v, more).len(),
    decreases more - fewer,
{
    if fewer < more {
        lemma_committed_entries_grow(v, fewer, more - 1);
    }
}

/// A scheduler that has committed an interval to a task lists something.
proof fn lemma_listed_holds(v: SchedulerView, t: int)
    requires
        0 <= t < v.tasks.len(),
        v.committed[t].len() > 0,
    ensures
        listed(v).len() > 0,
{
    lemma_committed_entries_grow(v, t + 1, v.tasks.len() as int);
    assert(committed_entries(v, t + 1).len() == committed_entries(v, t).len() + v.committed[t].len());
}

/// An entry that the days list is an entry of one of the days.
proof fn lemma_entry_of_a_day(days: Seq<ScheduleDay>, entry: PlanEntryView)
    requires
        all_entries(days).count(entry) > 0,
    ensures
        exists|d: int, e: int|
            0 <= d < days.len() && 0 <= e < days[d].entries@.len() && #[trigger] day_entries(
                days[d].entries@,
            )[e] == entry,
    decreases days.len(),
{
    if days.len() > 0 {
        let head = days.drop_last();
        let top = day_entries(days.last().entries@);
        if all_entries(head).count(entry) > 0 {
            lemma_entry_of_a_day(head, entry);
            let (d, e) = choose|d: int, e: int|
                0 <= d < head.len() && 0 <= e < head[d].entries@.len() && #[trigger] day_entries(
                    head[d].entries@,
                )[e] == entry;
            assert(head[d] == days[d]);
            assert(day_entries(days[d].entries@)[e] == entry);
        } else {
            top.to_multiset_ensures();
            assert(top.to_multiset().count(entry) > 0);
            assert(top.contains(entry));
            let e = choose|e: int| 0 <= e < top.len() && top[e] == entry;
            let d = days.len() - 1;
            assert(days[d] == days.last());
            assert(day_entries(days[d].entries@)[e] == entry);
        }
    }
}

/// The line of an entry: four spaces, the description, a colon and a
/// space, the label, and the end of the line.
pub open spec fn entry_line(entry: ScheduleEntry) -> Seq<char> {
    seq![' ', ' ', ' ', ' '] + entry.description@ + seq![':', ' '] + entry.label@ + seq!['\n']
}

/// The lines of the entries of a day, one after the other.
pub open spec fn entry_lines(entries: Seq<ScheduleEntry>) -> Seq<char>
    decreases entries.len(),
{
    if entries.len() == 0 {
        Seq::empty()
    } else {
        entry_lines(entries.drop_last()) + entry_line(entries.last())
    }
}

/// The text of a day: its date with a colon on a line of its own, then the
/// lines of its entries.
pub open spec fn day_text(day: ScheduleDay) -> Seq<char> {
    day.date@ + seq![':', '\n'] + entry_lines(day.entries@)
}

/// The text of a schedule: the texts of its days, one after the other.
pub open spec fn schedule_text(days: Seq<ScheduleDay>) -> Seq<char>
    decreases days.len(),
{
    if days.len() == 0 {
        Seq::empty()
    } else {
        schedule_text(days.drop_last()) + day_text(days.last())
    }
}

impl Schedule {
    /// The schedule as a text to read: for each day its date, and under it
    /// a line for each entry.
    pub fn to_string(&self) -> (r: String)
        ensures
            r@ == schedule_text(self.days@),
    {
        let mut text = String::new();
        let mut d: usize = 0;
        proof {
            reveal_strlit("    ");
            reveal_strlit(": ");
            reveal_strlit(":\n");
            reveal_strlit("\n");
            assert("    "@ =~= seq![' ', ' ', ' ', ' ']);
            assert(": "@ =~= seq![':', ' ']);
            assert(":\n"@ =~= seq![':', '\n']);
            assert("\n"@ =~= seq!['\n']);
            assert(self.days@.take(0) =~= Seq::<ScheduleDay>::empty());
        }
        while d < self.days.len()
            invariant
                d <= self.days.len(),
                "    "@ == seq![' ', ' ', ' ', ' '],
                ": "@ == seq![':', ' '],
                ":\n"@ == seq![':', '\n'],
                "\n"@ == seq!['\n'],
                text@ == schedule_text(self.days@.take(d as int)),
            decreases self.days.len() - d,
        {
            let day = &self.days[d];
            let ghost before = text@;
            text.append(day.date.as_str());
            text.append(":\n");
            let mut e: usize = 0;
            assert(day.entries@.take(0) =~= Seq::<ScheduleEntry>::empty());
            assert(text@ =~= before + (day.date@ + seq![':', '\n'] + entry_lines(
                day.entries@.take(0),
            )));
            while e < day.entries.len()
                invariant
                    e <= day.entries.len(),
                    "    "@ == seq![' ', ' ', ' ', ' '],
                    ": "@ == seq![':', ' '],
                    "\n"@ == seq!['\n'],
                    text@ == before + (day.date@ + seq![':', '\n'] + entry_lines(
                        day.entries@.take(e as int),
                    )),
                decreases day.entries.len() - e,
            {
                let entry = &day.entries[e];
                let ghost held = text@;
                text.append("    ");
                text.append(entry.description.as_str());
                text.append(": ");
                text.append(entry.label.as_str());
                text.append("\n");
                proof {
                    let upto = day.entries@.take(e as int + 1);
                    assert(upto.drop_last() =~= day.entries@.take(e as int));
                    assert(upto.last() == *entry);
                    assert(text@ =~= held + entry_line(*entry));
                    assert(text@ =~= before + (day.date@ + seq![':', '\n'] + entry_lines(upto)));
                }
                e += 1;
            }
            proof {
                assert(day.entries@.take(e as int) =~= day.entries@);
                let upto = self.days@.take(d as int + 1);
                assert(upto.drop_last() =~= self.days@.take(d as int));
                assert(upto.last() == *day);
            }
            d += 1;
        }
        assert(self.days@.take(d as int) =~= self.days@);
        text
    }

    /// The schedule of a scheduler: every committed interval, with the
    /// description of its task, and every plan entry, grouped by the day on
    /// which it begins in the machine's time zone.
    ///
    /// Which day an instant falls on and what the clock shows then is for
    /// the calendar to say. Whatever it says, the schedule lists exactly
    /// what the scheduler holds, its days stand in ascending order and are
    /// not empty, the entries of each day stand in order of their start,
    /// and every date and label has its form.
    ///
    /// A scheduler that holds nothing has the schedule without days. There
    /// is no schedule where the calendar cannot hold the start or the end of
    /// something that the scheduler holds.
    pub fn from(scheduler: &Scheduler) -> (r: Result<Schedule, ScheduleError>)
        requires
            scheduler.wf(),
        ensures
            listed(scheduler@).len() == 0 ==> (r matches Ok(schedule) && schedule.days@.len()
                == 0),
            r is Ok ==> all_in_calendar(listed(scheduler@)),
            match r {
                Ok(schedule) => {
                    &&& all_entries(schedule.days@) == listed(scheduler@).to_multiset()
                    &&& forall|d: int, e: int|
                        0 <= d < e < schedule.days@.len() ==> schedule.days@[d].start
                            < schedule.days@[e].start
                    &&& forall|d: int|
                        0 <= d < schedule.days@.len() ==> (#[trigger] schedule.days@[d]).entries@.len()
                            > 0 && in_order(day_entries(schedule.days@[d].entries@))
                    &&& forall|d: int|
                        0 <= d < schedule.days@.len() ==> is_date(
                            (#[trigger] schedule.days@[d]).date@,
                        )
                    &&& forall|d: int, e: int|
                        0 <= d < schedule.days@.len() && 0 <= e < schedule.days@[d].entries@.len()
                            ==> is_label((#[trigger] schedule.days@[d].entries@[e]).label@)
                },
                Err(e) => e == ScheduleError::Calendar,
            },
    {
        let ghost v = scheduler@;
        let tasks = scheduler.tasks();
        let committed = scheduler.committed();
        let mut all: Vec<Dated> = Vec::new();
        let mut t: usize = 0;
        assert(undated(all@) =~= committed_entries(v, 0));
        while t < tasks.len()
            invariant
                v == scheduler@,
                v.wf(),
                crate::tasks::task_views(tasks@) == v.tasks,
                crate::scheduler::committed_views(committed@) == v.committed,
                t <= tasks.len(),
                undated(all@) == committed_entries(v, t as int),
            decreases tasks.len() - t,
        {
            let list = &committed[t];
            assert(v.committed[t as int] == list@);
            assert(v.tasks[t as int] == tasks@[t as int]@);
            let ghost so_far = undated(all@);
            let mut k: usize = 0;
            assert(task_entries(tasks@[t as int].description@, list@).take(0) =~= Seq::<
                PlanEntryView,
            >::empty());
            assert(so_far + Seq::<PlanEntryView>::empty() =~= so_far);
            proof {
                if list@.len() > 0 {
                    lemma_listed_holds(v, t as int);
                }
            }
            while k < list.len()
                invariant
                    t < tasks.len(),
                    k <= list.len(),
                    v == scheduler@,
                    list@.len() > 0 ==> listed(v).len() > 0,
                    undated(all@) == so_far + task_entries(
                        tasks@[t as int].description@,
                        list@,
                    ).take(k as int),
                decreases list.len() - k,
            {
                let ghost held = undated(all@);
                match add_dated(&mut all, list[k], tasks[t].description.clone()) {
                    Ok(_) => {},
                    Err(e) => {
                        return Err(e);
                    },
                }
                proof {
                    let whole = task_entries(tasks@[t as int].description@, list@);
                    assert(whole.take(k as int + 1) =~= whole.take(k as int).push(whole[k as int]));
                    assert(undated(all@) =~= so_far + whole.take(k as int + 1));
                }
                k += 1;
            }
            proof {
                let whole = task_entries(tasks@[t as int].description@, list@);
                assert(whole.take(k as int) =~= whole);
            }
            t += 1;
        }
        let plans = scheduler.allocator().plans.entries();
        let ghost so_far = undated(all@);
        let mut p: usize = 0;
        assert(v.plans.take(0) =~= Seq::<PlanEntryView>::empty());
        assert(so_far + Seq::<PlanEntryView>::empty() =~= so_far);
        while p < plans.len()
            invariant
                p <= plans.len(),
                entry_views(plans@) == v.plans,
                v == scheduler@,
                listed(v).len() >= v.plans.len(),
                undated(all@) == so_far + v.plans.take(p as int),
            decreases plans.len() - p,
        {
            match add_dated(&mut all, plans[p].interval, plans[p].description.clone()) {
                Ok(_) => {},
                Err(e) => {
                    return Err(e);
                },
            }
            proof {
                assert(v.plans.take(p as int + 1) =~= v.plans.take(p as int).push(v.plans[p as int]));
                assert(undated(all@) =~= so_far + v.plans.take(p as int + 1));
            }
            p += 1;
        }
        proof {
            assert(v.plans.take(p as int) =~= v.plans);
            assert(undated(all@) == listed(v));
        }
        let groups = group_days(all);
        let mut days: Vec<ScheduleDay> = Vec::new();
        let mut g: usize = 0;
        assert(groups@.take(0) =~= Seq::<(i64, Vec<PlanEntry>)>::empty());
        while g < groups.len()
            invariant
                g <= groups.len(),
                days@.len() == g,
                v == scheduler@,
                groups@.len() > 0 ==> listed(v).len() > 0,
                forall|a: int, b: int| 0 <= a < b < groups@.len() ==> groups@[a].0 < groups@[b].0,
                forall|a: int|
                    0 <= a < groups@.len() ==> (#[trigger] groups@[a]).1@.len() > 0 && in_order(
                        entry_views(groups@[a].1@),
                    ),
                forall|d: int| 0 <= d < g ==> (#[trigger] days@[d]).start == groups@[d].0,
                all_entries(days@) == all_listed(groups@.take(g as int)),
                forall|d: int|
                    0 <= d < g ==> (#[trigger] days@[d]).entries@.len() > 0 && in_order(
                        day_entries(days@[d].entries@),
                    ),
                forall|d: int| 0 <= d < g ==> is_date((#[trigger] days@[d]).date@),
                forall|d: int, e: int|
                    0 <= d < g && 0 <= e < days@[d].entries@.len() ==> is_label(
                        (#[trigger] days@[d].entries@[e]).label@,
                    ),
                forall|d: int|
                    0 <= d < g ==> all_in_calendar(day_entries((#[trigger] days@[d]).entries@)),
            decreases groups.len() - g,
        {
            let start: i64 = groups[g].0;
            let ghost sorted_views = entry_views(groups@[g as int].1@);
            let entries = match label_entries(&groups[g].1) {
                Ok(entries) => entries,
                Err(e) => {
                    return Err(e);
                },
            };
            let date = match local_date_text(start) {
                Ok(date) => date,
                Err(_) => {
                    return Err(ScheduleError::Calendar);
                },
            };
            let ghost held = days@;
            days.push(ScheduleDay { start, date, entries });
            proof {
                let upto = groups@.take(g as int + 1);
                assert(upto.drop_last() =~= groups@.take(g as int));
                assert(upto.last() == groups@[g as int]);
                assert(days@.drop_last() =~= held);
                assert(entries@.len() == sorted_views.len());
            }
            g += 1;
        }
        proof {
            assert(groups@.take(g as int) =~= groups@);
            let held = listed(v);
            held.to_multiset_ensures();
            assert forall|i: int| 0 <= i < held.len() implies in_calendar(
                (#[trigger] held[i]).interval.start as int,
            ) && in_calendar(held[i].interval.end as int) by {
                assert(held.contains(held[i]));
                lemma_entry_of_a_day(days@, held[i]);
                let (d, e) = choose|d: int, e: int|
                    0 <= d < days@.len() && 0 <= e < days@[d].entries@.len()
                        && #[trigger] day_entries(days@[d].entries@)[e] == held[i];
                assert(all_in_calendar(day_entries(days@[d].entries@)));
            }
        }
        Ok(Schedule { days })
    }
}

} // verus!
