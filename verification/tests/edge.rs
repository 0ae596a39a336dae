//! Edge cases of the pattern grammar and of the mutation operations.

use tasklist::change_task_status;
use tasklist::parse_pattern;
use tasklist::remove_completed_tasks;
use tasklist::remove_tasks;
use tasklist::validate_range;
use tasklist::Error;
use tasklist::Span;
use tasklist::Task;
use tasklist::TaskStatus;

fn four_tasks() -> Vec<Task> {
    vec![
        Task::new("Task 1"),
        Task::new("Task 2"),
        Task::new("Task 3"),
        Task::new("Task 4"),
    ]
}

#[test]
fn single_number_clause() {
    assert_eq!(parse_pattern("42"), Ok(vec![Span::new(42, 42)]));
}

#[test]
fn pair_clause() {
    assert_eq!(parse_pattern("3-9"), Ok(vec![Span::new(3, 9)]));
}

#[test]
fn empty_pattern_is_malformed() {
    assert_eq!(parse_pattern(""), Err(Error::ParsePatternError));
}

#[test]
fn letters_are_malformed() {
    assert_eq!(parse_pattern("a,b"), Err(Error::ParsePatternError));
}

#[test]
fn three_tokens_are_malformed() {
    assert_eq!(parse_pattern("1-2-3"), Err(Error::ParsePatternError));
}

#[test]
fn empty_middle_clause_is_malformed() {
    assert_eq!(parse_pattern("1,,2"), Err(Error::ParsePatternError));
}

#[test]
fn trailing_comma_is_malformed() {
    assert_eq!(parse_pattern("1,"), Err(Error::ParsePatternError));
}

#[test]
fn missing_first_number_is_malformed() {
    assert_eq!(parse_pattern("-5"), Err(Error::ParsePatternError));
}

#[test]
fn whitespace_is_malformed() {
    assert_eq!(parse_pattern("1, 2"), Err(Error::ParsePatternError));
}

#[test]
fn largest_number_parses() {
    assert_eq!(
        parse_pattern("4294967295"),
        Ok(vec![Span::new(4294967295, 4294967295)])
    );
}

#[test]
fn number_overflow_is_malformed() {
    assert_eq!(parse_pattern("4294967296"), Err(Error::ParsePatternError));
}

#[test]
fn leading_zeros_parse() {
    assert_eq!(parse_pattern("007"), Ok(vec![Span::new(7, 7)]));
}

#[test]
fn zero_position_selects_nothing() {
    let tasks = four_tasks();
    let ranges = parse_pattern("0").unwrap();
    assert_eq!(ranges, vec![Span::new(0, 0)]);
    assert_eq!(validate_range(ranges, &tasks), Vec::<u32>::new());
}

#[test]
fn reversed_range_selects_nothing() {
    let tasks = four_tasks();
    let ranges = parse_pattern("3-2").unwrap();
    assert_eq!(ranges, vec![Span::new(3, 2)]);
    assert_eq!(validate_range(ranges, &tasks), Vec::<u32>::new());
}

#[test]
fn overlapping_ranges_repeat_positions() {
    let tasks = four_tasks();
    let ranges = parse_pattern("1-3,2-4").unwrap();
    assert_eq!(validate_range(ranges, &tasks), vec![0, 1, 2, 1, 2, 3]);
}

#[test]
fn duplicate_selection_removes_once() {
    let mut tasks = vec![Task::new("Task 1"), Task::new("Task 2"), Task::new("Task 3")];
    let ranges = parse_pattern("1-2,2").unwrap();
    remove_tasks(&mut tasks, ranges);
    assert_eq!(
        tasks,
        vec![Task {
            text: "Task 3".into(),
            status: TaskStatus::Incomplete
        }]
    );
}

#[test]
fn marking_twice_changes_nothing_more() {
    let mut once = four_tasks();
    let ranges = parse_pattern("1,3").unwrap();
    change_task_status(&mut once, ranges.clone(), TaskStatus::Complete);
    let mut twice = once.clone();
    change_task_status(&mut twice, ranges, TaskStatus::Complete);
    assert_eq!(twice, once);
}

#[test]
fn unmarking_restores_incomplete() {
    let mut tasks = four_tasks();
    change_task_status(
        &mut tasks,
        parse_pattern("1-4").unwrap(),
        TaskStatus::Complete,
    );
    change_task_status(&mut tasks, parse_pattern("2").unwrap(), TaskStatus::Incomplete);
    assert!(tasks[0].is_complete());
    assert!(!tasks[1].is_complete());
    assert!(tasks[2].is_complete());
    assert!(tasks[3].is_complete());
}

#[test]
fn sweep_keeps_survivors_in_order() {
    let mut tasks = four_tasks();
    change_task_status(
        &mut tasks,
        parse_pattern("1,3").unwrap(),
        TaskStatus::Complete,
    );
    remove_completed_tasks(&mut tasks);
    assert_eq!(
        tasks,
        vec![
            Task {
                text: "Task 2".into(),
                status: TaskStatus::Incomplete
            },
            Task {
                text: "Task 4".into(),
                status: TaskStatus::Incomplete
            },
        ]
    );
}

#[test]
fn new_task_starts_incomplete() {
    let mut t = Task::new("fresh");
    assert!(!t.is_complete());
    t.set_status(TaskStatus::Complete);
    assert!(t.is_complete());
    t.set_status(TaskStatus::Incomplete);
    assert!(!t.is_complete());
}
