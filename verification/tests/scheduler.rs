use task_scheduler::allocators::TaskAllocatorWithPlans;
use task_scheduler::heuristics::{deadline, dependency, priority, volume, Heuristic, Score};
use task_scheduler::interval::Interval;
use task_scheduler::plans::Plans;
use task_scheduler::scheduler::Scheduler;
use task_scheduler::tasks::Task;

const MINUTE: i64 = 60;
const HOUR: i64 = 3600;

fn at(text: &str) -> i64 {
    text.parse::<jiff::Timestamp>().unwrap().as_second()
}

fn value(score: Score) -> f32 {
    score.num as f32 / score.den as f32
}

fn task(description: &str, deadline: &str, priority: u64, volume: i64, dependencies: Vec<usize>) -> Task {
    Task {
        description: description.to_string(),
        deadline: at(deadline),
        priority,
        volume: volume as u64,
        dependencies,
    }
}

fn plans_of(blocks: &[(i64, i64)]) -> Plans {
    let mut plans = Plans::new();
    for (start, span) in blocks {
        plans.insert_with_overriding(Interval::from_span(*start, *span), String::new());
    }
    plans
}

fn test_tasks() -> Vec<Task> {
    vec![
        task("Task 0", "2025-03-05T12:00Z", 1, 2 * HOUR, vec![4]),
        task("Task 1", "2025-03-05T17:00Z", 1, HOUR, vec![0]),
        task("Task 2", "2025-03-05T13:00Z", 2, 3 * HOUR, vec![]),
        task("Task 3", "2025-03-05T18:00Z", 1, 3 * HOUR, vec![2]),
        task("Empty task", "2025-03-05T19:00Z", 1, 0, vec![]),
        task("Zero priority task", "2025-03-05T19:00Z", 0, HOUR / 2, vec![]),
    ]
}

fn scheduler_with(allocator: TaskAllocatorWithPlans) -> Scheduler {
    let interval = Interval::from_span(at("2025-03-05T00:00Z"), 24 * HOUR);
    Scheduler::new(allocator, test_tasks(), interval)
        .unwrap()
        .add_heuristic(Heuristic::Dependency)
        .add_heuristic(Heuristic::Volume)
        .add_heuristic(Heuristic::Deadline)
        .add_heuristic(Heuristic::Priority)
}

fn get_test_scheduler() -> Scheduler {
    let allocator = TaskAllocatorWithPlans {
        plans: plans_of(&[
            (at("2025-03-05T00:00Z"), 9 * HOUR),
            (at("2025-03-05T13:00Z"), 2 * HOUR),
            (at("2025-03-05T22:00Z"), 2 * HOUR),
        ]),
        granularity: HOUR,
    };
    scheduler_with(allocator)
}

#[test]
fn test_task_allocator() {
    let start = at("2025-03-05T00:00Z");
    let scheduler = scheduler_with(TaskAllocatorWithPlans {
        granularity: HOUR,
        plans: plans_of(&[
            (start, 2 * HOUR),
            (start + 2 * HOUR + 50 * MINUTE, 20 * MINUTE),
            (start + 4 * HOUR, HOUR),
        ]),
    });
    let allocator = scheduler.allocator();
    let task_idx = 0;
    let current_time = scheduler.current_time();

    let allocated_interval = allocator.allocate(&scheduler, current_time, task_idx);

    assert_eq!(
        allocated_interval,
        Interval::from_span(current_time + 2 * HOUR, 50 * MINUTE),
    );

    let current_time = scheduler.interval().end - 40 * MINUTE;
    let task_idx = 1;
    let allocated_interval = allocator.allocate(&scheduler, current_time, task_idx);
    assert_eq!(
        allocated_interval,
        Interval::from_span(current_time, 40 * MINUTE)
    );

    let current_time = scheduler.interval().start + 2 * HOUR;
    let task_idx = 5;
    let allocated_interval = allocator.allocate(&scheduler, current_time, task_idx);

    assert_eq!(
        allocated_interval,
        Interval::from_span(current_time, 30 * MINUTE)
    );

    let current_time = scheduler.interval().start + 4 * HOUR + 30 * MINUTE;
    let allocated_interval = allocator.allocate(&scheduler, current_time, task_idx);

    assert_eq!(
        allocated_interval,
        Interval::new(
            scheduler.interval().start + 5 * HOUR,
            scheduler.interval().start + 5 * HOUR + 30 * MINUTE
        )
    );
}

#[test]
fn test_dependency_heuristic() {
    let mut scheduler = get_test_scheduler();
    let task_idx = 0;
    let current_time = scheduler.interval().start;

    let score = dependency(&scheduler, current_time, task_idx);
    assert_eq!(value(score), 1.0);

    let task_idx = 1;
    let score = dependency(&scheduler, current_time, task_idx);
    assert_eq!(value(score), 0.0);

    let current_time = scheduler.interval().start + 12 * HOUR;
    let score = dependency(&scheduler, current_time, task_idx);
    assert_eq!(value(score), 1.0);

    let task_idx = 2;
    let score = dependency(&scheduler, current_time, task_idx);
    assert_eq!(value(score), 1.0);

    let task_idx = 0;
    let current_time = scheduler.interval().start + 9 * HOUR;
    scheduler.schedule_task(
        task_idx,
        Interval::new(current_time, current_time + 2 * HOUR),
    );
    let task_idx = 1;
    let current_time = scheduler.interval().start + 11 * HOUR;
    let score = dependency(&scheduler, current_time, task_idx);
    assert_eq!(value(score), 1.0);
}

#[test]
fn test_priority_heuristic() {
    let scheduler = get_test_scheduler();
    let task_idx = 0;
    let current_time = scheduler.interval().start;

    let score = priority(&scheduler, current_time, task_idx);
    assert_eq!(value(score), 1.0);

    let task_idx = 2;
    let score = priority(&scheduler, current_time, task_idx);
    assert_eq!(value(score), 2.0);
}

#[test]
fn test_deadline_heuristic() {
    let scheduler = get_test_scheduler();
    let task_idx = 0;
    let current_time = scheduler.interval().start;

    let score = deadline(&scheduler, current_time, task_idx);
    assert_eq!(value(score), 1.0 / 3.0);

    let task_idx = 3;
    let score = deadline(&scheduler, current_time, task_idx);
    assert_eq!(value(score), 1.0 / 7.0);

    let task_idx = 2;
    let current_time = scheduler.tasks()[task_idx].deadline + HOUR;
    let score = deadline(&scheduler, current_time, task_idx);
    assert_eq!(value(score), 0.0);

    let current_time = scheduler.tasks()[task_idx].deadline;
    let score = deadline(&scheduler, current_time, task_idx);
    assert_eq!(value(score), 0.0);
}

#[test]
fn test_volume_heuristic() {
    let mut scheduler = get_test_scheduler();
    let task_idx = 0;
    let current_time = scheduler.interval().start;

    let score = volume(&scheduler, current_time, task_idx);
    assert_eq!(value(score), 2.0);

    scheduler.schedule_task(
        task_idx,
        Interval::new(current_time, current_time + HOUR + 30 * MINUTE),
    );

    let score = volume(&scheduler, current_time, task_idx);
    assert_eq!(value(score), 0.5);
}

#[test]
fn test_scheduler() {
    let mut scheduler = get_test_scheduler();

    let mut scheduled_tasks = Vec::new();
    loop {
        let next_item = scheduler.next();
        match next_item {
            Some((task_idx, task_interval)) => {
                scheduled_tasks.push((task_idx, task_interval.clone()));
                scheduler.schedule_task(task_idx, task_interval)
            }
            None => break,
        }
    }

    assert_eq!(
        scheduled_tasks,
        vec![
            (2, Interval::from_span(at("2025-03-05T09:00Z"), HOUR)),
            (2, Interval::from_span(at("2025-03-05T10:00Z"), HOUR)),
            (0, Interval::from_span(at("2025-03-05T11:00Z"), HOUR)),
            (2, Interval::from_span(at("2025-03-05T12:00Z"), HOUR)),
            (3, Interval::from_span(at("2025-03-05T15:00Z"), HOUR)),
            (1, Interval::from_span(at("2025-03-05T16:00Z"), HOUR)),
            (3, Interval::from_span(at("2025-03-05T17:00Z"), HOUR)),
        ]
    );
}
