//! The engine exercised end to end: parsing patterns, resolving them
//! against a collection, and mutating it.

use tasklist::add_task;
use tasklist::change_task_status;
use tasklist::parse_pattern;
use tasklist::remove_all;
use tasklist::remove_completed_tasks;
use tasklist::remove_tasks;
use tasklist::validate_range;
use tasklist::Error;
use tasklist::Span;
use tasklist::Task;
use tasklist::TaskStatus;

fn setup_stuff() -> Vec<Task> {
    vec![
        Task::new("Task 1"),
        Task::new("Task 2"),
        Task::new("Task 3"),
        Task::new("Task 4"),
    ]
}

#[test]
fn pattern_parser_simple() {
    assert_eq!(
        parse_pattern("1,5,7"),
        Ok(vec![Span::new(1, 1), Span::new(5, 5), Span::new(7, 7)])
    );
}

#[test]
fn pattern_parser_complex() {
    assert_eq!(
        parse_pattern("1-6,13-17,7-9,14"),
        Ok(vec![
            Span::new(1, 6),
            Span::new(13, 17),
            Span::new(7, 9),
            Span::new(14, 14),
        ])
    );
}

#[test]
fn pattern_parser_secondary_missing() {
    assert_eq!(parse_pattern("1-"), Err(Error::ParsePatternError));
}

#[test]
fn removing_completed_tasks() {
    let mut tasks = setup_stuff();
    tasks[0].set_status(TaskStatus::Complete);
    tasks[1].set_status(TaskStatus::Complete);
    remove_completed_tasks(&mut tasks);

    assert_eq!(
        tasks,
        vec![
            Task {
                text: "Task 3".into(),
                status: TaskStatus::Incomplete
            },
            Task {
                text: "Task 4".into(),
                status: TaskStatus::Incomplete
            },
        ]
    )
}

#[test]
fn removing_selected_tasks() {
    let mut tasks = setup_stuff();
    let marked = parse_pattern("1-2,4").unwrap();
    remove_tasks(&mut tasks, marked);
    assert_eq!(
        tasks,
        vec![Task {
            text: "Task 3".into(),
            status: TaskStatus::Incomplete
        }]
    );
}

#[test]
fn validating_range() {
    let tasks = setup_stuff();
    let marked = parse_pattern("1-5,1-3,5-10").unwrap();
    assert_eq!(validate_range(marked, &tasks), vec![0, 1, 2])
}

#[test]
fn marking_selected_tasks() {
    let mut tasks = setup_stuff();
    let marked = parse_pattern("1-2,4,9-9999").unwrap();
    change_task_status(&mut tasks, marked, TaskStatus::Complete);
    assert_eq!(
        tasks,
        vec![
            Task {
                text: "Task 1".into(),
                status: TaskStatus::Complete
            },
            Task {
                text: "Task 2".into(),
                status: TaskStatus::Complete
            },
            Task {
                text: "Task 3".into(),
                status: TaskStatus::Incomplete
            },
            Task {
                text: "Task 4".into(),
                status: TaskStatus::Complete
            },
        ]
    );
}

#[test]
fn removing_all() {
    let mut tasks = setup_stuff();
    remove_all(&mut tasks);
    assert!(tasks.is_empty());
}

#[test]
fn adding_new_task() {
    let mut tasks = setup_stuff();
    add_task(&mut tasks, "This is a New Task!");
    assert_eq!(
        tasks,
        vec![
            Task {
                text: "Task 1".into(),
                status: TaskStatus::Incomplete
            },
            Task {
                text: "Task 2".into(),
                status: TaskStatus::Incomplete
            },
            Task {
                text: "Task 3".into(),
                status: TaskStatus::Incomplete
            },
            Task {
                text: "Task 4".into(),
                status: TaskStatus::Incomplete
            },
            Task {
                text: "This is a New Task!".into(),
                status: TaskStatus::Incomplete
            },
        ]
    );
}
