use task_scheduler::allocators::TaskAllocatorWithPlans;
use task_scheduler::heuristics::Heuristic;
use task_scheduler::interval::Interval;
use task_scheduler::plans::{PlanEntry, Plans};
use task_scheduler::schedule::{
    day_of, end_label, group_days, labelled, Dated, Schedule, ScheduleError,
};
use task_scheduler::scheduler::Scheduler;
use task_scheduler::tasks::Task;

const HOUR: i64 = 3600;

fn local(text: &str) -> i64 {
    text.parse::<jiff::civil::DateTime>()
        .unwrap()
        .to_zoned(jiff::tz::TimeZone::system())
        .unwrap()
        .timestamp()
        .as_second()
}

fn task(description: &str, deadline: i64, volume: i64) -> Task {
    Task {
        description: description.to_string(),
        deadline,
        priority: 1,
        volume: volume as u64,
        dependencies: vec![],
    }
}

fn scheduler(blocks: &[(i64, i64, &str)], tasks: Vec<Task>, window: Interval) -> Scheduler {
    let mut plans = Plans::new();
    for (start, end, description) in blocks {
        plans.insert_with_overriding(Interval::new(*start, *end), description.to_string());
    }
    Scheduler::new(TaskAllocatorWithPlans { granularity: 2 * HOUR, plans }, tasks, window).unwrap()
}

fn lines(schedule: &Schedule) -> Vec<(String, Vec<(String, String)>)> {
    schedule
        .days
        .iter()
        .map(|day| {
            (
                day.date.clone(),
                day.entries.iter().map(|e| (e.label.clone(), e.description.clone())).collect(),
            )
        })
        .collect()
}

fn line(label: &str, description: &str) -> (String, String) {
    (label.to_string(), description.to_string())
}

#[test]
fn midnight_at_the_end_is_written_as_24() {
    assert_eq!(end_label("00:00".to_string()), "24:00");
    assert_eq!(end_label("00:01".to_string()), "00:01");
    assert_eq!(end_label("24:00".to_string()), "24:00");
    assert_eq!(end_label("0:00".to_string()), "0:00");
    assert_eq!(end_label(String::new()), "");
}

#[test]
fn an_idle_scheduler_without_plans_has_an_empty_schedule() {
    let s = scheduler(&[], vec![task("a", 5, 5)], Interval::new(0, 10));
    let schedule = Schedule::from(&s).ok().unwrap();
    assert!(schedule.days.is_empty());
    assert_eq!(schedule.to_string(), "");
}

#[test]
fn the_schedule_lists_plans_and_committed_intervals_day_by_day() {
    let first = local("2025-03-04T00:00");
    let second = local("2025-03-05T00:00");
    let mut s = scheduler(
        &[
            (second + 22 * HOUR, second + 24 * HOUR, "sleep"),
            (first + 12 * HOUR, first + 13 * HOUR, "lunch"),
            (first, first + 8 * HOUR, "sleep"),
        ],
        vec![task("write", second + 20 * HOUR, 5 * HOUR), task("read", second, 3 * HOUR)],
        Interval::new(first, second + 24 * HOUR),
    )
    .add_heuristic(Heuristic::Volume)
    .add_heuristic(Heuristic::Deadline);
    s.schedule_task(1, Interval::new(second + 9 * HOUR, second + 10 * HOUR));
    s.schedule_task(0, Interval::new(first + 8 * HOUR, first + 10 * HOUR + 1800));
    s.schedule_task(0, Interval::new(second + 2 * HOUR, second + 3 * HOUR));
    s.schedule_task(1, Interval::new(first + 13 * HOUR, first + 13 * HOUR + 300));
    let schedule = Schedule::from(&s).ok().unwrap();
    assert_eq!(
        lines(&schedule),
        vec![
            (
                "2025-03-04".to_string(),
                vec![
                    line("00:00 - 08:00", "sleep"),
                    line("08:00 - 10:30", "write"),
                    line("12:00 - 13:00", "lunch"),
                    line("13:00 - 13:05", "read"),
                ]
            ),
            (
                "2025-03-05".to_string(),
                vec![
                    line("02:00 - 03:00", "write"),
                    line("09:00 - 10:00", "read"),
                    line("22:00 - 24:00", "sleep"),
                ]
            ),
        ]
    );
    assert_eq!(
        schedule.to_string(),
        "2025-03-04:\n    sleep: 00:00 - 08:00\n    write: 08:00 - 10:30\n    lunch: 12:00 - 13:00\n    read: 13:00 - 13:05\n2025-03-05:\n    write: 02:00 - 03:00\n    read: 09:00 - 10:00\n    sleep: 22:00 - 24:00\n"
    );
    assert_eq!(schedule.days[0].start, first);
    assert_eq!(schedule.days[1].start, second);
    assert_eq!(
        schedule.days[0].entries[1].interval,
        Interval::new(first + 8 * HOUR, first + 10 * HOUR + 1800)
    );
}

#[test]
fn the_schedule_of_a_run_lists_everything_once() {
    let first = local("2025-03-04T00:00");
    let mut s = scheduler(
        &[(first + 3 * HOUR, first + 4 * HOUR, "break"), (first + 30 * HOUR, first + 31 * HOUR, "break")],
        vec![task("one", first + 40 * HOUR, 7 * HOUR), task("two", first + 20 * HOUR, 4 * HOUR)],
        Interval::new(first, first + 26 * HOUR),
    )
    .add_heuristic(Heuristic::Volume)
    .add_heuristic(Heuristic::Deadline);
    s.schedule();
    let schedule = Schedule::from(&s).ok().unwrap();
    let mut listed: Vec<(i64, i64, String)> = Vec::new();
    let mut last_day = i64::MIN;
    for day in &schedule.days {
        assert!(day.start > last_day);
        last_day = day.start;
        assert!(!day.entries.is_empty());
        let mut last_start = i64::MIN;
        for entry in &day.entries {
            assert!(entry.interval.start >= last_start);
            last_start = entry.interval.start;
            assert!(entry.interval.start >= day.start);
            listed.push((entry.interval.start, entry.interval.end, entry.description.clone()));
        }
    }
    let mut expected: Vec<(i64, i64, String)> = Vec::new();
    for (idx, list) in s.committed().iter().enumerate() {
        for interval in list {
            expected.push((interval.start, interval.end, s.tasks()[idx].description.clone()));
        }
    }
    for entry in s.allocator().plans.entries() {
        expected.push((entry.interval.start, entry.interval.end, entry.description.clone()));
    }
    assert!(expected.len() > 4);
    listed.sort();
    expected.sort();
    assert_eq!(listed, expected);
    assert_eq!(schedule.days.len(), 2);
}

#[test]
fn the_schedule_reaches_as_far_as_the_calendar() {
    let last = 253402207200;
    let s = scheduler(&[(0, last, "all")], vec![], Interval::new(0, 10));
    let schedule = Schedule::from(&s).ok().unwrap();
    assert_eq!(schedule.days.len(), 1);
    assert_eq!(schedule.days[0].entries.len(), 1);
    assert_eq!(schedule.days[0].entries[0].interval, Interval::new(0, last));
    let s = scheduler(&[(0, last + 1, "all")], vec![], Interval::new(0, 10));
    assert_eq!(Schedule::from(&s).err(), Some(ScheduleError::Calendar));
    let first = -377705023201;
    let mut s = scheduler(&[], vec![task("a", 5, 5)], Interval::new(0, 10));
    s.schedule_task(0, Interval::new(first - 1, 0));
    assert_eq!(Schedule::from(&s).err(), Some(ScheduleError::Calendar));
}

#[test]
fn an_instant_beyond_the_calendar_fails_the_schedule() {
    let mut s = scheduler(&[], vec![task("a", 5, 5)], Interval::new(0, 10));
    s.schedule_task(0, Interval::new(i64::MAX - 1, i64::MAX));
    assert_eq!(Schedule::from(&s).err(), Some(ScheduleError::Calendar));
    let s = scheduler(&[(0, i64::MAX, "all")], vec![], Interval::new(0, 10));
    assert_eq!(Schedule::from(&s).err(), Some(ScheduleError::Calendar));
}

fn dated(day: i64, start: i64, end: i64, description: &str) -> Dated {
    Dated {
        day,
        entry: PlanEntry { interval: Interval::new(start, end), description: description.to_string() },
    }
}

#[test]
fn entries_are_grouped_under_the_days_they_are_given() {
    let items = vec![
        dated(200, 250, 260, "c"),
        dated(100, 150, 160, "b"),
        dated(200, 210, 220, "d"),
        dated(100, 110, 300, "a"),
        dated(-5, 0, 1, "e"),
        dated(100, 150, 155, "f"),
    ];
    assert_eq!(day_of(&items[0]), 200);
    let days: Vec<(i64, Vec<(i64, i64, String)>)> = group_days(items)
        .into_iter()
        .map(|(day, entries)| {
            (
                day,
                entries
                    .into_iter()
                    .map(|e| (e.interval.start, e.interval.end, e.description))
                    .collect(),
            )
        })
        .collect();
    assert_eq!(
        days,
        vec![
            (-5, vec![(0, 1, "e".to_string())]),
            (
                100,
                vec![
                    (110, 300, "a".to_string()),
                    (150, 160, "b".to_string()),
                    (150, 155, "f".to_string())
                ]
            ),
            (200, vec![(210, 220, "d".to_string()), (250, 260, "c".to_string())]),
        ]
    );
    assert!(group_days(vec![]).is_empty());
}

#[test]
fn an_entry_is_labelled_with_the_clock_times_it_is_given() {
    let entry = labelled(
        Interval::new(5, 9),
        "work".to_string(),
        "09:00".to_string(),
        "17:30".to_string(),
    );
    assert_eq!(entry.interval, Interval::new(5, 9));
    assert_eq!(entry.description, "work");
    assert_eq!(entry.label, "09:00 - 17:30");
    let entry = labelled(Interval::new(5, 9), String::new(), "22:00".to_string(), "00:00".to_string());
    assert_eq!(entry.label, "22:00 - 24:00");
}
