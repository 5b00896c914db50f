use task_scheduler::allocators::TaskAllocatorWithPlans;
use task_scheduler::heuristics::{
    deadline, dependency, factors, locality, priority, select, volume, Heuristic, Score,
};
use task_scheduler::interval::Interval;
use task_scheduler::plans::Plans;
use task_scheduler::scheduler::Scheduler;
use task_scheduler::tasks::Task;

const HOUR: i64 = 3600;

fn task(deadline: i64, priority: u64, volume: i64, dependencies: Vec<usize>) -> Task {
    Task {
        description: "task".to_string(),
        deadline,
        priority,
        volume: volume as u64,
        dependencies,
    }
}

fn scheduler(tasks: Vec<Task>, blocks: &[(i64, i64)]) -> Scheduler {
    let mut plans = Plans::new();
    for (start, end) in blocks {
        plans.insert_with_overriding(Interval::new(*start, *end), String::new());
    }
    let allocator = TaskAllocatorWithPlans { granularity: HOUR, plans };
    Scheduler::new(allocator, tasks, Interval::new(0, 24 * HOUR)).unwrap()
}

#[test]
fn dependency_is_one_exactly_when_every_dependency_is_met() {
    // A dependency is met when it is overdue or done. Tasks 0 to 3 are the
    // four states: open, overdue, done, overdue and done.
    let now = 10 * HOUR;
    let states = [(20 * HOUR, false), (5 * HOUR, false), (20 * HOUR, true), (5 * HOUR, true)];
    let met = [false, true, true, true];
    let mut tasks: Vec<Task> = states.iter().map(|(d, _)| task(*d, 1, HOUR, vec![])).collect();
    let mut expected: Vec<bool> = Vec::new();
    tasks.push(task(20 * HOUR, 1, HOUR, vec![]));
    expected.push(true);
    for a in 0..4 {
        tasks.push(task(20 * HOUR, 1, HOUR, vec![a]));
        expected.push(met[a]);
    }
    for a in 0..4 {
        for b in 0..4 {
            tasks.push(task(20 * HOUR, 1, HOUR, vec![a, b]));
            expected.push(met[a] && met[b]);
        }
    }
    let mut s = scheduler(tasks, &[]);
    for (idx, (_, done)) in states.iter().enumerate() {
        if *done {
            s.schedule_task(idx, Interval::new(0, HOUR));
        }
    }
    for (offset, wanted) in expected.iter().enumerate() {
        let score = dependency(&s, now, 4 + offset);
        assert_eq!(score, Score { num: if *wanted { 1 } else { 0 }, den: 1 });
    }
}

#[test]
fn a_dependency_is_met_at_its_deadline_and_when_nothing_is_left() {
    let mut s = scheduler(
        vec![task(10 * HOUR, 1, 2 * HOUR, vec![]), task(20 * HOUR, 1, HOUR, vec![0])],
        &[],
    );
    assert_eq!(dependency(&s, 10 * HOUR - 1, 1).num, 0);
    assert_eq!(dependency(&s, 10 * HOUR, 1).num, 1);
    s.schedule_task(0, Interval::new(0, 2 * HOUR - 1));
    assert_eq!(dependency(&s, 3 * HOUR, 1).num, 0);
    s.schedule_task(0, Interval::new(2 * HOUR - 1, 2 * HOUR));
    assert_eq!(dependency(&s, 3 * HOUR, 1).num, 1);
    s.schedule_task(0, Interval::new(5 * HOUR, 6 * HOUR));
    assert_eq!(dependency(&s, 7 * HOUR, 1).num, 1);
}

#[test]
fn priority_is_the_tasks_own() {
    let s = scheduler(vec![task(HOUR, 0, HOUR, vec![]), task(HOUR, 7, HOUR, vec![])], &[]);
    assert_eq!(priority(&s, 0, 0), Score { num: 0, den: 1 });
    assert_eq!(priority(&s, 99 * HOUR, 1), Score { num: 7, den: 1 });
}

#[test]
fn deadline_is_one_over_the_working_hours() {
    let s = scheduler(
        vec![task(12 * HOUR, 1, HOUR, vec![])],
        &[(0, 9 * HOUR), (13 * HOUR, 15 * HOUR)],
    );
    assert_eq!(deadline(&s, 0, 0), Score { num: 3600, den: 3 * 3600 });
    assert_eq!(deadline(&s, 10 * HOUR, 0), Score { num: 3600, den: 2 * 3600 });
    assert_eq!(deadline(&s, 12 * HOUR - 1, 0), Score { num: 3600, den: 1 });
    assert_eq!(deadline(&s, 12 * HOUR, 0), Score { num: 0, den: 1 });
    assert_eq!(deadline(&s, 13 * HOUR, 0), Score { num: 0, den: 1 });
}

#[test]
fn a_plan_that_meets_the_stretch_counts_in_full() {
    let s = scheduler(vec![task(10 * HOUR, 1, HOUR, vec![])], &[(9 * HOUR, 14 * HOUR)]);
    // Six hours are left, of which the plan takes five, though only one of
    // them lies before the deadline.
    assert_eq!(deadline(&s, 4 * HOUR, 0), Score { num: 3600, den: 3600 });
    assert_eq!(deadline(&s, 6 * HOUR, 0), Score { num: 0, den: 1 });
    assert_eq!(s.get_planned_hours(Interval::new(4 * HOUR, 10 * HOUR)).seconds, 5 * 3600);
    assert_eq!(s.get_planned_hours(Interval::new(4 * HOUR, 9 * HOUR)).seconds, 0);
}

#[test]
fn volume_is_the_work_that_remains_in_hours() {
    let mut s = scheduler(vec![task(HOUR, 1, 2 * HOUR, vec![])], &[]);
    assert_eq!(volume(&s, 0, 0), Score { num: 7200, den: 3600 });
    s.schedule_task(0, Interval::new(0, 5400));
    assert_eq!(volume(&s, 0, 0), Score { num: 1800, den: 3600 });
    s.schedule_task(0, Interval::new(5400, 3 * HOUR));
    assert_eq!(volume(&s, 0, 0), Score { num: 0, den: 3600 });
}

#[test]
fn locality_doubles_the_task_that_was_worked_on_last() {
    let mut s = scheduler(
        vec![task(HOUR, 1, HOUR, vec![]), task(HOUR, 1, HOUR, vec![]), task(HOUR, 1, HOUR, vec![])],
        &[],
    );
    for idx in 0..3 {
        assert_eq!(locality(&s, 0, idx), Score { num: 1, den: 1 });
    }
    s.schedule_task(1, Interval::new(0, 100));
    assert_eq!(locality(&s, 0, 0), Score { num: 1, den: 1 });
    assert_eq!(locality(&s, 0, 1), Score { num: 2, den: 1 });
    s.schedule_task(0, Interval::new(100, 200));
    assert_eq!(locality(&s, 0, 0), Score { num: 2, den: 1 });
    assert_eq!(locality(&s, 0, 1), Score { num: 1, den: 1 });
}

#[test]
fn evaluate_gives_what_the_heuristic_gives() {
    let s = scheduler(vec![task(10 * HOUR, 3, 2 * HOUR, vec![])], &[]);
    assert_eq!(Heuristic::Dependency.evaluate(&s, 0, 0), dependency(&s, 0, 0));
    assert_eq!(Heuristic::Priority.evaluate(&s, 0, 0), Score { num: 3, den: 1 });
    assert_eq!(Heuristic::Deadline.evaluate(&s, 0, 0), Score { num: 3600, den: 36000 });
    assert_eq!(Heuristic::Volume.evaluate(&s, 0, 0), Score { num: 7200, den: 3600 });
    assert_eq!(Heuristic::Locality.evaluate(&s, 0, 0), Score { num: 1, den: 1 });
}

#[test]
fn factors_follow_the_registry() {
    let s = scheduler(vec![task(10 * HOUR, 3, 2 * HOUR, vec![])], &[])
        .add_heuristic(Heuristic::Volume)
        .add_heuristic(Heuristic::Priority)
        .add_heuristic(Heuristic::Volume);
    let (nums, dens) = factors(&s, 0, 0);
    assert_eq!(nums, vec![7200, 3, 7200]);
    assert_eq!(dens, vec![3600, 1, 3600]);
}

#[test]
fn the_greatest_score_is_selected_and_of_equals_the_first() {
    let tasks = vec![
        task(10 * HOUR, 1, 2 * HOUR, vec![]),
        task(10 * HOUR, 2, 3 * HOUR, vec![]),
        task(10 * HOUR, 3, 2 * HOUR, vec![]),
        task(10 * HOUR, 6, HOUR, vec![]),
    ];
    let s = scheduler(tasks, &[])
        .add_heuristic(Heuristic::Volume)
        .add_heuristic(Heuristic::Priority);
    // The scores are 2, 6, 6 and 6.
    assert_eq!(select(&s, 0), Some(1));
}

#[test]
fn without_heuristics_every_score_is_one_and_the_first_task_is_selected() {
    let s = scheduler(vec![task(HOUR, 0, 0, vec![]), task(HOUR, 5, HOUR, vec![])], &[]);
    assert_eq!(select(&s, 0), Some(0));
}

#[test]
fn nothing_is_selected_where_every_score_is_zero() {
    let s = scheduler(vec![task(HOUR, 0, HOUR, vec![]), task(HOUR, 1, 0, vec![])], &[])
        .add_heuristic(Heuristic::Volume)
        .add_heuristic(Heuristic::Priority);
    assert_eq!(select(&s, 0), None);
    let none = scheduler(vec![], &[]).add_heuristic(Heuristic::Volume);
    assert_eq!(select(&none, 0), None);
}

#[test]
fn scores_are_compared_exactly_however_large_they_grow() {
    // Six times the volume: the products leave every machine integer behind.
    // Task 1 has one second more to do than task 0, so it wins, but only by
    // the last digits.
    let large = (1i64 << 62) + 12345;
    let mut s = scheduler(
        vec![task(HOUR, 1, large, vec![]), task(HOUR, 1, large + 1, vec![]), task(HOUR, 1, large, vec![])],
        &[],
    );
    for _ in 0..6 {
        s = s.add_heuristic(Heuristic::Volume);
    }
    assert_eq!(select(&s, 0), Some(1));
    s.schedule_task(1, Interval::new(0, 1));
    assert_eq!(select(&s, 0), Some(0));
    s.schedule_task(0, Interval::new(0, 1));
    assert_eq!(select(&s, 0), Some(1));
    s.schedule_task(1, Interval::new(5, 6));
    assert_eq!(select(&s, 0), Some(2));
}

#[test]
fn a_tighter_deadline_outranks_a_larger_volume_by_cross_multiplying() {
    // 2 h of work, 3 h left: 2/3. 3 h of work, 5 h left: 3/5. 2/3 is more.
    let s = scheduler(
        vec![task(5 * HOUR, 1, 3 * HOUR, vec![]), task(3 * HOUR, 1, 2 * HOUR, vec![])],
        &[],
    )
    .add_heuristic(Heuristic::Volume)
    .add_heuristic(Heuristic::Deadline);
    assert_eq!(select(&s, 0), Some(1));
}
