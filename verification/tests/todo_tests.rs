use cli_utils::task::{add_task, complete_task, next_id, remove_task, task_counts, DoneOutcome,
    Priority, Task};

#[test]
fn test_next_id_empty() {
    let tasks: Vec<Task> = vec![];
    assert_eq!(next_id(&tasks), 1);
}

#[test]
fn test_next_id_with_tasks() {
    let tasks = vec![
        Task::new(1, "First".to_string(), Priority::Low),
        Task::new(5, "Fifth".to_string(), Priority::High),
        Task::new(3, "Third".to_string(), Priority::Medium),
    ];
    assert_eq!(next_id(&tasks), 6);
}

#[test]
fn test_new_task() {
    let task = Task::new(1, "Test task".to_string(), Priority::Medium);
    assert_eq!(task.id, 1);
    assert_eq!(task.description, "Test task");
    assert!(!task.completed);
    assert_eq!(task.priority, Priority::Medium);
}

#[test]
fn test_priority_from_str() {
    assert_eq!(Priority::from_str("low"), Ok(Priority::Low));
    assert_eq!(Priority::from_str("HIGH"), Ok(Priority::High));
    assert_eq!(Priority::from_str("med"), Ok(Priority::Medium));
    assert!(Priority::from_str("invalid").is_err());
}

#[test]
fn test_priority_display() {
    assert_eq!(Priority::Low.label(), "low");
    assert_eq!(Priority::High.label(), "high");
}

#[test]
fn test_priority_error_message() {
    let err = Priority::from_str("urgent").unwrap_err();
    assert_eq!(err, "Invalid priority: 'urgent'. Use low, medium, or high");
}

#[test]
fn test_add_task_assigns_next_id() {
    let mut tasks = vec![Task::new(2, "Old".to_string(), Priority::Low)];
    let id = add_task(&mut tasks, "New".to_string(), Priority::High);
    assert_eq!(id, 3);
    assert_eq!(tasks.len(), 2);
    assert_eq!(tasks[1].description, "New");
    assert!(!tasks[1].completed);
}

#[test]
fn test_complete_task_marks_first_match() {
    let mut tasks = vec![
        Task::new(1, "One".to_string(), Priority::Low),
        Task::new(2, "Two".to_string(), Priority::Medium),
    ];
    let r = complete_task(&mut tasks, 2);
    assert!(matches!(r, DoneOutcome::Completed(d) if d == "Two"));
    assert!(tasks[1].completed);
    assert!(!tasks[0].completed);
}

#[test]
fn test_complete_task_already_done() {
    let mut tasks = vec![Task::new(1, "One".to_string(), Priority::Low)];
    complete_task(&mut tasks, 1);
    let r = complete_task(&mut tasks, 1);
    assert!(matches!(r, DoneOutcome::AlreadyDone(d) if d == "One"));
}

#[test]
fn test_complete_task_not_found() {
    let mut tasks = vec![Task::new(1, "One".to_string(), Priority::Low)];
    let r = complete_task(&mut tasks, 9);
    assert!(matches!(r, DoneOutcome::NotFound));
    assert_eq!(tasks.len(), 1);
}

#[test]
fn test_remove_task() {
    let mut tasks = vec![
        Task::new(1, "One".to_string(), Priority::Low),
        Task::new(2, "Two".to_string(), Priority::Medium),
    ];
    let removed = remove_task(&mut tasks, 1).unwrap();
    assert_eq!(removed.description, "One");
    assert_eq!(tasks.len(), 1);
    assert_eq!(tasks[0].id, 2);
    assert!(remove_task(&mut tasks, 7).is_none());
}

#[test]
fn test_task_counts() {
    let mut tasks = vec![
        Task::new(1, "One".to_string(), Priority::Low),
        Task::new(2, "Two".to_string(), Priority::Medium),
        Task::new(3, "Three".to_string(), Priority::High),
    ];
    complete_task(&mut tasks, 2);
    let (pending, completed) = task_counts(&tasks);
    assert_eq!(pending, 2);
    assert_eq!(completed, 1);
}
