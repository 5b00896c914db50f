//! Setting up a scheduler from what a configuration holds.

use crate::allocators::TaskAllocatorWithPlans;
use crate::calendar::{
    civil_instant, civil_is_read, in_calendar, parse_civil, parse_span, span_seconds,
};
use crate::heuristics::Heuristic;
use crate::interval::Interval;
use crate::plans::{PlanEntryView, Plans};
use crate::recurrence::{described, made_of, rule_views, text_error, PlanError, PlanRule};
use crate::scheduler::{rejection, Scheduler, SchedulerError};
use crate::tasks::{chain_lines, chain_links, follows, TaskError, Tasks};
use vstd::prelude::*;

verus! {

/// `indexmap::IndexMap`: a map that keeps its entries in the order in which
/// they were put in.
#[verifier::external_type_specification]
#[verifier::external_body]
#[verifier::reject_recursive_types(K)]
#[verifier::reject_recursive_types(V)]
#[verifier::reject_recursive_types(S)]
pub struct ExIndexMap<K, V, S>(indexmap::IndexMap<K, V, S>);

/// The rules that a map of plans holds, in the order in which they were put
/// in: each recurrence with its ranges, and each range with its
/// description, as `indexmap::IndexMap::iter` hands them out.
pub uninterp spec fn rule_entries(
    plans: indexmap::IndexMap<String, indexmap::IndexMap<String, String>>,
) -> Seq<(Seq<char>, Seq<(Seq<char>, Seq<char>)>)>;

/// Walks the map of plans with `indexmap::IndexMap::iter`, which keeps the
/// order in which the entries were put in, and hands out every rule with a
/// copy of its texts.
#[verifier::external_body]
fn rules_of(plans: &indexmap::IndexMap<String, indexmap::IndexMap<String, String>>) -> (r: Vec<
    PlanRule,
>)
    ensures
        rule_views(r@) == rule_entries(*plans),
{
    plans.iter().map(
        |(recurrence, ranges)|
            PlanRule {
                recurrence: recurrence.clone(),
                ranges: ranges.iter().map(|(range, text)| (range.clone(), text.clone())).collect(),
            },
    ).collect()
}

/// What a configuration holds: the task lines in chains, the recurring
/// plans, the granularity as a span, and the start and the end of the window
/// as a date with hours and minutes.
pub struct SchedulerConfig {
    pub tasks: Vec<Vec<String>>,
    pub plans: indexmap::IndexMap<String, indexmap::IndexMap<String, String>>,
    pub granularity: String,
    pub start: String,
    pub end: String,
}

/// Why a scheduler could not be set up from a configuration.
#[derive(Clone, Copy, Debug, PartialEq, Eq, Structural)]
pub enum ConfigError {
    /// The start of the window could not be read.
    Start,
    /// The end of the window could not be read.
    End,
    /// The granularity could not be read.
    Granularity,
    /// The plans could not be laid out.
    Plans(PlanError),
    /// A task could not be read.
    Tasks(TaskError),
    /// The parts do not make a scheduler.
    Scheduler(SchedulerError),
}

/// The instant that a date with hours and minutes stands for in the
/// machine's time zone. There is none where the text is not read as a date
/// with hours and minutes; where it is read, the time zone decides what the
/// instant is, and there is none where the calendar cannot hold it.
fn read_instant(text: &str) -> (r: Option<i64>)
    ensures
        !civil_is_read(text@) ==> r is None,
        r matches Some(instant) ==> in_calendar(instant as int),
{
    match parse_civil(text) {
        Ok(civil) => match civil_instant(civil) {
            Ok(instant) => Some(instant),
            Err(_) => None,
        },
        Err(_) => None,
    }
}

impl Scheduler {
    /// The scheduler that the parts of a configuration make, once each of
    /// them has been read. The first part that could not be read gives the
    /// error, in the order start, end, granularity, plans, tasks; parts that
    /// were all read make a scheduler unless [`Scheduler::new`] refuses
    /// them.
    pub fn assemble(
        start: Option<i64>,
        end: Option<i64>,
        granularity: Option<i64>,
        plans: Result<Plans, PlanError>,
        tasks: Result<Tasks, TaskError>,
    ) -> (r: Result<Scheduler, ConfigError>)
        ensures
            match r {
                Ok(s) => {
                    &&& start matches Some(from)
                    &&& end matches Some(until)
                    &&& granularity matches Some(step)
                    &&& plans matches Ok(blocked)
                    &&& tasks matches Ok(list)
                    &&& rejection(step, list@, Interval { start: from, end: until }) is None
                    &&& s.wf()
                    &&& s@.within_volume()
                    &&& s@.tasks == list@
                    &&& s@.committed == Seq::new(list@.len(), |t: int| Seq::<Interval>::empty())
                    &&& s@.granularity == step
                    &&& s@.plans == blocked@
                    &&& s@.window == (Interval { start: from, end: until })
                    &&& s@.current_time == from
                    &&& s@.heuristics == Seq::<Heuristic>::empty()
                },
                Err(e) => e == if start is None {
                    ConfigError::Start
                } else if end is None {
                    ConfigError::End
                } else if granularity is None {
                    ConfigError::Granularity
                } else if plans is Err {
                    ConfigError::Plans(plans->Err_0)
                } else if tasks is Err {
                    ConfigError::Tasks(tasks->Err_0)
                } else {
                    ConfigError::Scheduler(
                        rejection(
                            granularity->0,
                            tasks->Ok_0@,
                            Interval { start: start->0, end: end->0 },
                        )->0,
                    )
                } && (start is None || end is None || granularity is None || plans is Err
                    || tasks is Err || rejection(
                    granularity->0,
                    tasks->Ok_0@,
                    Interval { start: start->0, end: end->0 },
                ) is Some),
            },
    {
        let from: i64 = match start {
            Some(from) => from,
            None => {
                return Err(ConfigError::Start);
            },
        };
        let until: i64 = match end {
            Some(until) => until,
            None => {
                return Err(ConfigError::End);
            },
        };
        let step: i64 = match granularity {
            Some(step) => step,
            None => {
                return Err(ConfigError::Granularity);
            },
        };
        let blocked = match plans {
            Ok(blocked) => blocked,
            Err(e) => {
                return Err(ConfigError::Plans(e));
            },
        };
        let list = match tasks {
            Ok(list) => list,
            Err(e) => {
                return Err(ConfigError::Tasks(e));
            },
        };
        let allocator = TaskAllocatorWithPlans { granularity: step, plans: blocked };
        match Scheduler::new(allocator, list.into_vec(), Interval::new(from, until)) {
            Ok(s) => Ok(s),
            Err(e) => Err(ConfigError::Scheduler(e)),
        }
    }

    /// The scheduler that a configuration describes, with the cursor at the
    /// start of the window, nothing committed and no heuristic registered.
    ///
    /// A start or an end that is not read as a date with hours and minutes
    /// is refused, the start first, and then a granularity that spells no
    /// span. The granularity is what its text spells as a span. What instants
    /// the start and the end stand for, which days the plans fall on and when
    /// the deadlines are is for the calendar to say: whatever it says, the
    /// plans are what the rules make from a day that starts at or before the
    /// start of the window, as [`Plans::from_day`] has it, and a
    /// scheduler that comes back is made of the tasks that the lines
    /// describe, chained as they are written, and its plans carry only
    /// descriptions that the configuration gives.
    pub fn try_from(value: SchedulerConfig) -> (r: Result<Scheduler, ConfigError>)
        ensures
            !civil_is_read(value.start@) ==> r == Err::<Scheduler, ConfigError>(ConfigError::Start),
            !civil_is_read(value.end@) ==> r == Err::<Scheduler, ConfigError>(ConfigError::Start)
                || r == Err::<Scheduler, ConfigError>(ConfigError::End),
            span_seconds(value.granularity@) is None ==> r == Err::<Scheduler, ConfigError>(
                ConfigError::Start,
            ) || r == Err::<Scheduler, ConfigError>(ConfigError::End) || r == Err::<
                Scheduler,
                ConfigError,
            >(ConfigError::Granularity),
            r is Ok ==> civil_is_read(value.start@) && civil_is_read(value.end@),
            match r {
                Ok(s) => {
                    &&& s.wf()
                    &&& s@.within_volume()
                    &&& span_seconds(value.granularity@) == Some(s@.granularity as int)
                    &&& s@.current_time == s@.window.start
                    &&& s@.heuristics == Seq::<Heuristic>::empty()
                    &&& s@.committed == Seq::new(
                        s@.tasks.len(),
                        |t: int| Seq::<Interval>::empty(),
                    )
                    &&& s@.tasks.len() == chain_lines(value.tasks@).len()
                    &&& forall|p: int|
                        0 <= p < s@.tasks.len() ==> follows(
                            #[trigger] s@.tasks[p],
                            chain_lines(value.tasks@)[p],
                            chain_links(value.tasks@)[p],
                        )
                    &&& forall|i: int|
                        0 <= i < s@.plans.len() ==> described(
                            rule_entries(value.plans),
                            (#[trigger] s@.plans[i]).description,
                        )
                    &&& text_error(rule_entries(value.plans)) is None
                    &&& rule_entries(value.plans).len() == 0 ==> s@.plans.len() == 0
                    &&& rule_entries(value.plans).len() > 0 ==> exists|
                        from: int,
                        blocks: Seq<PlanEntryView>,
                        origins: Seq<(int, int)>,
                    |
                        #![trigger made_of(rule_entries(value.plans), from, s@.window.end as int, blocks, origins, s@.plans)]
                        in_calendar(from) && from <= s@.window.start && made_of(
                            rule_entries(value.plans),
                            from,
                            s@.window.end as int,
                            blocks,
                            origins,
                            s@.plans,
                        )
                },
                Err(ConfigError::Plans(e)) => match text_error(rule_entries(value.plans)) {
                    Some(wrong) => e == wrong,
                    None => e == PlanError::Clock || e == PlanError::Inverted || e
                        == PlanError::Calendar,
                },
                Err(ConfigError::Granularity) => span_seconds(value.granularity@) is None,
                Err(ConfigError::Scheduler(e)) => span_seconds(value.granularity@) is Some && (e
                    == SchedulerError::NonPositiveGranularity <==> span_seconds(
                    value.granularity@,
                )->0 <= 0),
                Err(_) => true,
            },
    {
        let start = read_instant(value.start.as_str());
        let end = read_instant(value.end.as_str());
        let granularity = match parse_span(value.granularity.as_str()) {
            Ok(step) => Some(step),
            Err(_) => None,
        };
        let window = match (start, end) {
            (Some(from), Some(until)) => Interval::new(from, until),
            (None, _) => {
                return Err(ConfigError::Start);
            },
            (_, None) => {
                return Err(ConfigError::End);
            },
        };
        let rules = rules_of(&value.plans);
        let ghost entries = rule_entries(value.plans);
        let plans = Plans::try_from(&window, rules);
        let tasks = Tasks::try_from(value.tasks);
        Scheduler::assemble(start, end, granularity, plans, tasks)
    }
}

} // verus!
