use task_scheduler::interval::Interval;

#[test]
fn new_keeps_both_ends() {
    let interval = Interval::new(3, 8);
    assert_eq!(interval.start, 3);
    assert_eq!(interval.end, 8);
}

#[test]
fn from_span_adds_the_span_to_the_start() {
    assert_eq!(Interval::from_span(100, 3600), Interval::new(100, 3700));
    assert_eq!(Interval::from_span(-50, 20), Interval::new(-50, -30));
}

#[test]
fn move_to_keeps_the_length() {
    let mut interval = Interval::new(10, 25);
    interval.move_to(100);
    assert_eq!(interval, Interval::new(100, 115));
    interval.move_to(-5);
    assert_eq!(interval, Interval::new(-5, 10));
}

#[test]
fn span_is_the_length_in_seconds() {
    assert_eq!(Interval::new(10, 25).span(), 15);
    assert_eq!(Interval::new(25, 10).span(), -15);
}

#[test]
fn hours_counts_seconds_exactly() {
    let hours = Interval::new(0, 5400).hours();
    assert_eq!(hours.seconds, 5400);
    assert_eq!(hours.seconds as f64 / 3600.0, 1.5);
    assert_eq!(Interval::new(i64::MIN, i64::MAX).hours().seconds, u64::MAX as u128);
}

#[test]
fn set_span_keeps_the_start() {
    let mut interval = Interval::new(10, 25);
    interval.set_span(2);
    assert_eq!(interval, Interval::new(10, 12));
}

#[test]
fn touching_intervals_do_not_intercept() {
    let a = Interval::new(0, 10);
    assert!(!a.intercepts(&Interval::new(10, 20)));
    assert!(!Interval::new(10, 20).intercepts(&a));
    assert!(a.intercepts(&Interval::new(9, 20)));
    assert!(a.intercepts(&Interval::new(2, 3)));
    assert!(!a.intercepts(&Interval::new(0, 0)));
    assert!(a.intercepts(&Interval::new(5, 5)));
}

#[test]
fn contains_includes_the_ends() {
    let a = Interval::new(0, 10);
    assert!(a.contains(&a));
    assert!(a.contains(&Interval::new(0, 3)));
    assert!(a.contains(&Interval::new(10, 10)));
    assert!(!a.contains(&Interval::new(5, 11)));
}

#[test]
fn partial_overlap_is_overlap_on_one_side_only() {
    let a = Interval::new(0, 10);
    assert!(a.partially_intercepts(&Interval::new(5, 15)));
    assert!(a.partially_intercepts(&Interval::new(-5, 5)));
    assert!(!a.partially_intercepts(&Interval::new(2, 8)));
    assert!(!a.partially_intercepts(&Interval::new(-2, 12)));
    assert!(!a.partially_intercepts(&Interval::new(10, 12)));
}

#[test]
fn precedes_orders_by_start_then_end() {
    assert!(Interval::new(0, 10).precedes(&Interval::new(1, 2)));
    assert!(Interval::new(0, 5).precedes(&Interval::new(0, 6)));
    assert!(!Interval::new(0, 5).precedes(&Interval::new(0, 5)));
    assert!(!Interval::new(2, 3).precedes(&Interval::new(1, 9)));
}
