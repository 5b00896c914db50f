use task_scheduler::interval::Interval;
use task_scheduler::plans::Plans;

const HOUR: i64 = 3600;

fn monday() -> i64 {
    "2025-03-03T00:00Z".parse::<jiff::Timestamp>().unwrap().as_second()
}

fn listing(plans: &Plans) -> Vec<(i64, i64, String)> {
    plans
        .entries()
        .iter()
        .map(|e| (e.interval.start, e.interval.end, e.description.clone()))
        .collect()
}

fn entry(start: i64, end: i64, description: &str) -> (i64, i64, String) {
    (start, end, description.to_string())
}

fn no_two_intersect(plans: &Plans) -> bool {
    let entries = plans.entries();
    for i in 0..entries.len() {
        for j in 0..entries.len() {
            if i != j && entries[i].interval.intercepts(&entries[j].interval) {
                return false;
            }
        }
    }
    true
}

fn in_order(plans: &Plans) -> bool {
    let entries = plans.entries();
    for i in 1..entries.len() {
        if !entries[i - 1].interval.precedes(&entries[i].interval) {
            return false;
        }
    }
    true
}

#[test]
fn new_plan_set_is_empty() {
    let plans = Plans::new();
    assert_eq!(plans.len(), 0);
    assert!(plans.entries().is_empty());
}

#[test]
fn override_carves_a_hole_into_an_earlier_entry() {
    let day = monday();
    let mut plans = Plans::new();
    plans.insert_with_overriding(Interval::new(day, day + 9 * HOUR), "sleep".to_string());
    plans.insert_with_overriding(
        Interval::new(day + 2 * HOUR, day + 3 * HOUR),
        "call".to_string(),
    );
    assert_eq!(
        listing(&plans),
        vec![
            entry(day, day + 2 * HOUR, "sleep"),
            entry(day + 2 * HOUR, day + 3 * HOUR, "call"),
            entry(day + 3 * HOUR, day + 9 * HOUR, "sleep"),
        ]
    );
    assert_eq!(plans.interval_at(1), Interval::new(day + 2 * HOUR, day + 3 * HOUR));
}

#[test]
fn disjoint_inserts_leave_exactly_what_was_inserted() {
    let mut plans = Plans::new();
    let inserted = vec![
        entry(50, 60, "e"),
        entry(0, 10, "a"),
        entry(20, 30, "c"),
        entry(10, 20, "b"),
        entry(35, 40, "d"),
    ];
    for (start, end, description) in &inserted {
        plans.insert_with_overriding(Interval::new(*start, *end), description.clone());
    }
    assert_eq!(
        listing(&plans),
        vec![
            entry(0, 10, "a"),
            entry(10, 20, "b"),
            entry(20, 30, "c"),
            entry(35, 40, "d"),
            entry(50, 60, "e"),
        ]
    );
}

#[test]
fn inserting_the_same_entry_twice_changes_nothing() {
    let mut plans = Plans::new();
    plans.insert_with_overriding(Interval::new(0, 100), "long".to_string());
    plans.insert_with_overriding(Interval::new(150, 200), "far".to_string());
    plans.insert_with_overriding(Interval::new(40, 160), "wide".to_string());
    let once = listing(&plans);
    plans.insert_with_overriding(Interval::new(40, 160), "wide".to_string());
    assert_eq!(listing(&plans), once);
    assert_eq!(
        once,
        vec![entry(0, 40, "long"), entry(40, 160, "wide"), entry(160, 200, "far")]
    );
}

#[test]
fn a_second_insert_of_the_same_interval_replaces_the_description() {
    let mut plans = Plans::new();
    plans.insert_with_overriding(Interval::new(5, 9), "first".to_string());
    plans.insert_with_overriding(Interval::new(5, 9), "second".to_string());
    assert_eq!(listing(&plans), vec![entry(5, 9, "second")]);
}

#[test]
fn entries_within_the_new_interval_are_removed() {
    let mut plans = Plans::new();
    plans.insert_with_overriding(Interval::new(10, 20), "a".to_string());
    plans.insert_with_overriding(Interval::new(30, 40), "b".to_string());
    plans.insert_with_overriding(Interval::new(50, 60), "c".to_string());
    plans.insert_with_overriding(Interval::new(10, 45), "all".to_string());
    assert_eq!(listing(&plans), vec![entry(10, 45, "all"), entry(50, 60, "c")]);
}

#[test]
fn entries_that_overlap_one_end_are_cut_back() {
    let mut plans = Plans::new();
    plans.insert_with_overriding(Interval::new(0, 20), "left".to_string());
    plans.insert_with_overriding(Interval::new(30, 50), "right".to_string());
    plans.insert_with_overriding(Interval::new(15, 35), "middle".to_string());
    assert_eq!(
        listing(&plans),
        vec![entry(0, 15, "left"), entry(15, 35, "middle"), entry(35, 50, "right")]
    );
}

#[test]
fn an_entry_around_the_new_interval_is_split_only_where_something_is_left() {
    let mut plans = Plans::new();
    plans.insert_with_overriding(Interval::new(0, 10), "base".to_string());
    plans.insert_with_overriding(Interval::new(0, 4), "head".to_string());
    assert_eq!(listing(&plans), vec![entry(0, 4, "head"), entry(4, 10, "base")]);
    plans.insert_with_overriding(Interval::new(8, 10), "tail".to_string());
    assert_eq!(
        listing(&plans),
        vec![entry(0, 4, "head"), entry(4, 8, "base"), entry(8, 10, "tail")]
    );
}

#[test]
fn touching_entries_are_left_alone() {
    let mut plans = Plans::new();
    plans.insert_with_overriding(Interval::new(0, 10), "a".to_string());
    plans.insert_with_overriding(Interval::new(10, 20), "b".to_string());
    plans.insert_with_overriding(Interval::new(20, 30), "c".to_string());
    assert_eq!(
        listing(&plans),
        vec![entry(0, 10, "a"), entry(10, 20, "b"), entry(20, 30, "c")]
    );
}

#[test]
fn an_empty_interval_splits_the_entry_it_falls_into() {
    let mut plans = Plans::new();
    plans.insert_with_overriding(Interval::new(1, 5), "block".to_string());
    plans.insert_with_overriding(Interval::new(3, 3), "mark".to_string());
    assert_eq!(
        listing(&plans),
        vec![entry(1, 3, "block"), entry(3, 3, "mark"), entry(3, 5, "block")]
    );
    assert!(no_two_intersect(&plans));
}

#[test]
fn an_empty_entry_at_the_end_of_a_new_interval_is_swallowed() {
    let mut plans = Plans::new();
    plans.insert_with_overriding(Interval::new(5, 5), "mark".to_string());
    plans.insert_with_overriding(Interval::new(1, 5), "block".to_string());
    assert_eq!(listing(&plans), vec![entry(1, 5, "block")]);
}

#[test]
fn no_two_entries_intersect_after_any_inserts() {
    let mut state: u64 = 0x2545_f491_4f6c_dd1d;
    let mut plans = Plans::new();
    for round in 0..400 {
        state = state
            .wrapping_mul(6364136223846793005)
            .wrapping_add(1442695040888963407);
        let start = ((state >> 33) % 200) as i64;
        state = state
            .wrapping_mul(6364136223846793005)
            .wrapping_add(1442695040888963407);
        let span = ((state >> 33) % 40) as i64;
        plans.insert_with_overriding(Interval::new(start, start + span), format!("{}", round));
        assert!(no_two_intersect(&plans));
        assert!(in_order(&plans));
        let held = plans
            .entries()
            .iter()
            .any(|e| e.interval == Interval::new(start, start + span) && e.description == format!("{}", round));
        assert!(held);
    }
}
