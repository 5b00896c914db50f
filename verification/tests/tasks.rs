use task_scheduler::dependencies::is_acyclic;
use task_scheduler::tasks::{read_task_line, Task, TaskError, TaskLine, Tasks};

fn local_midnight(year: i16, month: i8, day: i8) -> i64 {
    jiff::civil::date(year, month, day)
        .to_zoned(jiff::tz::TimeZone::system())
        .unwrap()
        .timestamp()
        .as_second()
}

fn line_error(line: &str) -> Option<TaskError> {
    read_task_line(line).err()
}

fn task_error(line: &str) -> Option<TaskError> {
    Task::try_from(line.to_string()).err()
}

#[test]
fn a_line_gives_description_date_priority_and_volume() {
    let read = read_task_line("Write report / 2025-03-07 / 10h / 25% / !!!").unwrap();
    assert_eq!(read.description, "Write report");
    assert_eq!(read.date, "2025-03-07");
    assert_eq!(read.priority, 3);
    // Ten hours of which a quarter is done: seven and a half hours.
    assert_eq!(read.volume, 27_000);
}

#[test]
fn the_priority_is_one_where_it_is_left_out() {
    let read = read_task_line("a/2025-01-01/1h/0%").unwrap();
    assert_eq!(read.priority, 1);
    assert_eq!(read.volume, 3600);
    assert_eq!(read.description, "a");
}

#[test]
fn an_empty_priority_field_is_priority_zero() {
    let read = read_task_line("a/2025-01-01/1h/0%/").unwrap();
    assert_eq!(read.priority, 0);
    let marks = read_task_line("a/2025-01-01/1h/0%/ ! ");
    assert_eq!(marks.unwrap().priority, 1);
}

#[test]
fn the_volume_is_what_is_left_of_the_hours() {
    let volume = |line: &str| read_task_line(line).unwrap().volume;
    assert_eq!(volume("a/d/2h/50%"), 3600);
    assert_eq!(volume("a/d/+2h/99%"), 72);
    assert_eq!(volume("a/d/0h/0%"), 0);
    assert_eq!(volume("a/d/3x/100?"), 0);
    assert_eq!(volume("a/d/3h/250%"), 0);
    assert_eq!(volume("a/d/007h/0%"), 7 * 3600);
    assert_eq!(volume("a/d/4294967295h/0%"), 4294967295 * 3600);
}

#[test]
fn a_fifth_field_of_anything_but_marks_is_refused() {
    assert_eq!(line_error("a/d/1h/0%/!?"), Some(TaskError::Priority));
    assert_eq!(line_error("a/d/1h/0%/high"), Some(TaskError::Priority));
    assert_eq!(line_error("a/d/x/y/! !"), Some(TaskError::Priority));
}

#[test]
fn a_line_with_too_few_or_too_many_fields_is_refused() {
    assert_eq!(line_error(""), Some(TaskError::Fields));
    assert_eq!(line_error("a/d/1h"), Some(TaskError::Fields));
    assert_eq!(line_error("a/d/1h/0%/!/x"), Some(TaskError::Fields));
}

#[test]
fn a_volume_that_is_no_number_with_a_unit_is_refused() {
    assert_eq!(line_error("a/d//0%"), Some(TaskError::Volume));
    assert_eq!(line_error("a/d/h/0%"), Some(TaskError::Volume));
    assert_eq!(line_error("a/d/1.5h/0%"), Some(TaskError::Volume));
    assert_eq!(line_error("a/d/-1h/0%"), Some(TaskError::Volume));
    assert_eq!(line_error("a/d/+h/0%"), Some(TaskError::Volume));
    assert_eq!(line_error("a/d/4294967296h/0%"), Some(TaskError::Volume));
    assert_eq!(line_error("a/d/1 h/x"), Some(TaskError::Volume));
}

#[test]
fn a_progress_that_is_no_number_with_a_sign_is_refused() {
    assert_eq!(line_error("a/d/1h/"), Some(TaskError::Progress));
    assert_eq!(line_error("a/d/1h/%"), Some(TaskError::Progress));
    assert_eq!(line_error("a/d/1h/half%"), Some(TaskError::Progress));
}

#[test]
fn numbers_are_read_as_the_standard_library_reads_them() {
    for digits in ["0", "+0", "12", "00012", "4294967295", "4294967296", "99999999999999999999", "", "+", "1_0", "١٢", "-0", "1 0"] {
        let line = format!("a/d/{}h/0%", digits);
        let expected = digits.parse::<u32>().ok().map(|hours| hours as u64 * 3600);
        assert_eq!(read_task_line(&line).ok().map(|read| read.volume), expected);
    }
}

#[test]
fn the_deadline_is_the_start_of_its_date() {
    let task = Task::try_from("Write report / 2025-03-07 / 10h / 25% / !!".to_string()).unwrap();
    assert_eq!(task.description, "Write report");
    assert_eq!(task.deadline, local_midnight(2025, 3, 7));
    assert_eq!(task.priority, 2);
    assert_eq!(task.volume, 27_000);
    assert!(task.dependencies.is_empty());
}

#[test]
fn a_deadline_that_is_no_date_is_refused() {
    assert_eq!(task_error("a / someday / 1h / 0%"), Some(TaskError::Deadline));
    assert_eq!(task_error("a / 2025-02-30 / 1h / 0%"), Some(TaskError::Deadline));
    assert_eq!(task_error("a /  / 1h / 0%"), Some(TaskError::Deadline));
}

#[test]
fn what_the_line_says_is_looked_at_before_the_deadline() {
    assert_eq!(task_error("a / someday / 1h / 0% / x"), Some(TaskError::Priority));
    assert_eq!(task_error("a / someday / 1h"), Some(TaskError::Fields));
    assert_eq!(task_error("a / someday / h1 / 0%"), Some(TaskError::Volume));
    assert_eq!(task_error("a / someday / 1h / 0"), Some(TaskError::Progress));
}

#[test]
fn a_task_is_made_of_its_line_and_the_instant_of_its_deadline() {
    let line = || TaskLine {
        description: "d".to_string(),
        date: "whenever".to_string(),
        priority: 4,
        volume: 99,
    };
    let task = Task::with_deadline(line(), Some(-12)).unwrap();
    assert_eq!(task.description, "d");
    assert_eq!(task.deadline, -12);
    assert_eq!(task.priority, 4);
    assert_eq!(task.volume, 99);
    assert!(task.dependencies.is_empty());
    assert_eq!(Task::with_deadline(line(), None).err(), Some(TaskError::Deadline));
}

#[test]
fn every_task_of_a_chain_depends_on_the_one_before_it() {
    let chain = |names: &[&str]| -> Vec<String> {
        names.iter().map(|n| format!("{} / 2025-03-07 / 1h / 0%", n)).collect()
    };
    let tasks = Tasks::try_from(vec![chain(&["a", "b", "c"]), chain(&[]), chain(&["d"]), chain(&["e", "f"])])
        .unwrap()
        .into_vec();
    let names: Vec<&str> = tasks.iter().map(|t| t.description.as_str()).collect();
    assert_eq!(names, vec!["a", "b", "c", "d", "e", "f"]);
    let links: Vec<Vec<usize>> = tasks.iter().map(|t| t.dependencies.clone()).collect();
    assert_eq!(links, vec![vec![], vec![0], vec![1], vec![], vec![], vec![4]]);
    assert!(is_acyclic(&tasks));
}

#[test]
fn no_chains_make_no_tasks() {
    assert!(Tasks::try_from(vec![]).unwrap().into_vec().is_empty());
    assert!(Tasks::try_from(vec![vec![], vec![]]).unwrap().into_vec().is_empty());
}

#[test]
fn a_line_that_cannot_be_read_fails_the_whole_list() {
    let good = "a / 2025-03-07 / 1h / 0%".to_string();
    let result = Tasks::try_from(vec![vec![good.clone()], vec![good.clone(), "b / 2025-03-07 / 1h".to_string()]]);
    assert_eq!(result.err(), Some(TaskError::Fields));
    let result = Tasks::try_from(vec![vec![good.clone(), "b / never / 1h / 0%".to_string()], vec![good]]);
    assert_eq!(result.err(), Some(TaskError::Deadline));
}

#[test]
fn tasks_in_a_circle_are_not_acyclic() {
    let task = |dependencies: Vec<usize>| Task {
        description: String::new(),
        deadline: 0,
        priority: 1,
        volume: 1,
        dependencies,
    };
    assert!(is_acyclic(&vec![]));
    assert!(is_acyclic(&vec![task(vec![1]), task(vec![2]), task(vec![])]));
    assert!(!is_acyclic(&vec![task(vec![1]), task(vec![2]), task(vec![1])]));
    assert!(!is_acyclic(&vec![task(vec![]), task(vec![1])]));
    assert!(is_acyclic(&vec![task(vec![2, 2, 1]), task(vec![2]), task(vec![])]));
}
