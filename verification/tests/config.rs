use indexmap::IndexMap;
use task_scheduler::config::{ConfigError, SchedulerConfig};
use task_scheduler::interval::Interval;
use task_scheduler::plans::Plans;
use task_scheduler::recurrence::PlanError;
use task_scheduler::scheduler::{Scheduler, SchedulerError};
use task_scheduler::tasks::{TaskError, Tasks};

const HOUR: i64 = 3600;

fn local(text: &str) -> i64 {
    text.parse::<jiff::civil::DateTime>()
        .unwrap()
        .to_zoned(jiff::tz::TimeZone::system())
        .unwrap()
        .timestamp()
        .as_second()
}

fn plans_map(rules: &[(&str, &[(&str, &str)])]) -> IndexMap<String, IndexMap<String, String>> {
    let mut map = IndexMap::new();
    for (recurrence, ranges) in rules {
        let mut inner = IndexMap::new();
        for (range, description) in ranges.iter() {
            inner.insert(range.to_string(), description.to_string());
        }
        map.insert(recurrence.to_string(), inner);
    }
    map
}

fn config() -> SchedulerConfig {
    SchedulerConfig {
        tasks: vec![
            vec![
                "Draft / 2025-03-06 / 4h / 50% / !!".to_string(),
                "Proofread / 2025-03-07 / 1h / 0%".to_string(),
            ],
            vec!["Errand / 2025-03-05 / 1h / 0%".to_string()],
        ],
        plans: plans_map(&[
            ("* * *", &[("23:00-24:00", "sleep"), ("00:00-08:00", "sleep"), ("12:00-13:00", "lunch")]),
            ("5 3 *", &[("07:00-09:00", "train")]),
        ]),
        granularity: "1h 30m".to_string(),
        start: "2025-03-04 00:00".to_string(),
        end: "2025-03-06 00:00".to_string(),
    }
}

fn failure(config: SchedulerConfig) -> Option<ConfigError> {
    Scheduler::try_from(config).err()
}

fn some_tasks() -> Result<Tasks, TaskError> {
    Tasks::try_from(vec![vec!["a / 2025-03-06 / 4h / 0%".to_string()]])
}

#[test]
fn a_configuration_makes_a_scheduler() {
    let s = Scheduler::try_from(config()).unwrap();
    assert_eq!(s.interval(), Interval::new(local("2025-03-04T00:00"), local("2025-03-06T00:00")));
    assert_eq!(s.current_time(), local("2025-03-04T00:00"));
    assert_eq!(s.allocator().granularity, 5400);
    assert!(s.heuristics().is_empty());
    assert_eq!(s.committed(), &vec![Vec::<Interval>::new(), Vec::new(), Vec::new()]);
    let tasks = s.tasks();
    assert_eq!(tasks.len(), 3);
    assert_eq!(tasks[0].description, "Draft");
    assert_eq!(tasks[0].deadline, local("2025-03-06T00:00"));
    assert_eq!(tasks[0].priority, 2);
    assert_eq!(tasks[0].volume, 2 * 3600);
    assert!(tasks[0].dependencies.is_empty());
    assert_eq!(tasks[1].description, "Proofread");
    assert_eq!(tasks[1].dependencies, vec![0]);
    assert_eq!(tasks[2].description, "Errand");
    assert!(tasks[2].dependencies.is_empty());
}

#[test]
fn the_plans_of_a_configuration_are_laid_down_in_the_order_they_are_written() {
    let s = Scheduler::try_from(config()).unwrap();
    let listed: Vec<(i64, i64, &str)> = s
        .allocator()
        .plans
        .entries()
        .iter()
        .map(|e| (e.interval.start, e.interval.end, e.description.as_str()))
        .collect();
    if jiff::tz::TimeZone::system().to_offset(jiff::Timestamp::UNIX_EPOCH).seconds() != 0 {
        for (_, _, description) in &listed {
            assert!(["sleep", "lunch", "train"].contains(description));
        }
        return;
    }
    let fourth = local("2025-03-04T00:00");
    let fifth = local("2025-03-05T00:00");
    assert_eq!(
        listed,
        vec![
            (fourth, fourth + 8 * HOUR, "sleep"),
            (fourth + 12 * HOUR, fourth + 13 * HOUR, "lunch"),
            (fourth + 23 * HOUR, fifth, "sleep"),
            (fifth, fifth + 7 * HOUR, "sleep"),
            (fifth + 7 * HOUR, fifth + 9 * HOUR, "train"),
            (fifth + 12 * HOUR, fifth + 13 * HOUR, "lunch"),
            (fifth + 23 * HOUR, fifth + 24 * HOUR, "sleep"),
        ]
    );
}

#[test]
fn the_granularity_is_read_as_a_span() {
    let with = |granularity: &str| SchedulerConfig { granularity: granularity.to_string(), ..config() };
    assert_eq!(Scheduler::try_from(with("1h")).unwrap().allocator().granularity, 3600);
    assert_eq!(Scheduler::try_from(with("PT45M")).unwrap().allocator().granularity, 2700);
    assert_eq!(Scheduler::try_from(with("90 seconds")).unwrap().allocator().granularity, 90);
    assert_eq!(failure(with("an hour")), Some(ConfigError::Granularity));
    assert_eq!(failure(with("")), Some(ConfigError::Granularity));
    assert_eq!(failure(with("1 day")), Some(ConfigError::Granularity));
    assert_eq!(
        failure(with("0s")),
        Some(ConfigError::Scheduler(SchedulerError::NonPositiveGranularity))
    );
    assert_eq!(
        failure(with("-1h")),
        Some(ConfigError::Scheduler(SchedulerError::NonPositiveGranularity))
    );
}

#[test]
fn a_start_or_an_end_that_cannot_be_read_is_refused() {
    assert_eq!(
        failure(SchedulerConfig { start: "tomorrow".to_string(), ..config() }),
        Some(ConfigError::Start)
    );
    assert_eq!(
        failure(SchedulerConfig { end: "2025-03-06".to_string(), ..config() }),
        Some(ConfigError::End)
    );
    assert_eq!(
        failure(SchedulerConfig {
            start: "2025-13-01 00:00".to_string(),
            end: String::new(),
            granularity: String::new(),
            ..config()
        }),
        Some(ConfigError::Start)
    );
}

#[test]
fn a_window_that_is_empty_is_refused() {
    assert_eq!(
        failure(SchedulerConfig { end: "2025-03-04 00:00".to_string(), ..config() }),
        Some(ConfigError::Scheduler(SchedulerError::EmptyWindow))
    );
}

#[test]
fn plans_that_cannot_be_laid_out_are_refused() {
    assert_eq!(
        failure(SchedulerConfig { plans: plans_map(&[("* * *", &[("8-9-10", "x")])]), ..config() }),
        Some(ConfigError::Plans(PlanError::Range))
    );
    assert_eq!(
        failure(SchedulerConfig { plans: plans_map(&[("daily", &[("8:00-9:00", "x")])]), ..config() }),
        Some(ConfigError::Plans(PlanError::Rule))
    );
    assert_eq!(
        failure(SchedulerConfig { plans: plans_map(&[("* * *", &[("8:00-nine", "x")])]), ..config() }),
        Some(ConfigError::Plans(PlanError::Clock))
    );
    assert_eq!(
        failure(SchedulerConfig { plans: plans_map(&[("* * *", &[("9:00-8:00", "x")])]), ..config() }),
        Some(ConfigError::Plans(PlanError::Inverted))
    );
}

#[test]
fn tasks_that_cannot_be_read_are_refused() {
    assert_eq!(
        failure(SchedulerConfig { tasks: vec![vec!["a / 2025-03-06 / 4h".to_string()]], ..config() }),
        Some(ConfigError::Tasks(TaskError::Fields))
    );
    assert_eq!(
        failure(SchedulerConfig { tasks: vec![vec!["a / soon / 4h / 0%".to_string()]], ..config() }),
        Some(ConfigError::Tasks(TaskError::Deadline))
    );
}

#[test]
fn the_first_part_that_could_not_be_read_gives_the_error() {
    let error = |start, end, granularity, plans, tasks| {
        Scheduler::assemble(start, end, granularity, plans, tasks).err()
    };
    assert_eq!(
        error(None, None, None, Err(PlanError::Rule), Err(TaskError::Fields)),
        Some(ConfigError::Start)
    );
    assert_eq!(
        error(Some(0), None, None, Err(PlanError::Rule), Err(TaskError::Fields)),
        Some(ConfigError::End)
    );
    assert_eq!(
        error(Some(0), Some(9), None, Err(PlanError::Rule), Err(TaskError::Fields)),
        Some(ConfigError::Granularity)
    );
    assert_eq!(
        error(Some(0), Some(9), Some(1), Err(PlanError::Clock), Err(TaskError::Fields)),
        Some(ConfigError::Plans(PlanError::Clock))
    );
    assert_eq!(
        error(Some(0), Some(9), Some(1), Ok(Plans::new()), Err(TaskError::Volume)),
        Some(ConfigError::Tasks(TaskError::Volume))
    );
    assert_eq!(
        error(Some(9), Some(9), Some(1), Ok(Plans::new()), some_tasks()),
        Some(ConfigError::Scheduler(SchedulerError::EmptyWindow))
    );
    assert_eq!(
        error(Some(9), Some(9), Some(0), Ok(Plans::new()), some_tasks()),
        Some(ConfigError::Scheduler(SchedulerError::NonPositiveGranularity))
    );
}

#[test]
fn parts_that_were_all_read_make_a_scheduler() {
    let mut plans = Plans::new();
    plans.insert_with_overriding(Interval::new(3, 5), "p".to_string());
    let s = Scheduler::assemble(Some(-4), Some(9), Some(2), Ok(plans), some_tasks()).unwrap();
    assert_eq!(s.interval(), Interval::new(-4, 9));
    assert_eq!(s.current_time(), -4);
    assert_eq!(s.allocator().granularity, 2);
    assert_eq!(s.allocator().plans.len(), 1);
    assert_eq!(s.tasks().len(), 1);
    assert_eq!(s.tasks()[0].volume, 4 * 3600);
    assert_eq!(s.committed(), &vec![Vec::<Interval>::new()]);
}
