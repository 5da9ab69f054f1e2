use omnivore::tasks::formatter::{format_priority_distribution, format_task_line, format_task_list};
use omnivore::tasks::model::{Priority, Task, TaskError};

#[test]
fn new_task_defaults() {
    let task = Task::new(1, "Write tests", Priority::Medium);
    assert_eq!(task.id, 1);
    assert_eq!(task.title, "Write tests");
    assert!(!task.completed);
    assert!(task.description.is_empty());
    assert!(task.tags.is_empty());
}

#[test]
fn toggle_completed() {
    let mut task = Task::new(1, "Test", Priority::Low);
    assert!(!task.completed);
    task.toggle_completed();
    assert!(task.completed);
    task.toggle_completed();
    assert!(!task.completed);
}

#[test]
fn matches_search_title() {
    let task = Task::new(1, "Fix login bug", Priority::High);
    assert!(task.matches_search("login"));
    assert!(task.matches_search("LOGIN"));
    assert!(!task.matches_search("signup"));
}

#[test]
fn matches_search_description() {
    let task = Task::new(1, "Bug", Priority::High).with_description("Users cannot login after password reset");
    assert!(task.matches_search("password"));
}

#[test]
fn matches_search_tags() {
    let task = Task::new(1, "Bug", Priority::High).with_tags(vec!["auth".into(), "urgent".into()]);
    assert!(task.matches_search("auth"));
    assert!(!task.matches_search("frontend"));
}

#[test]
fn is_actionable() {
    let high = Task::new(1, "A", Priority::High);
    assert!(high.is_actionable());

    let critical = Task::new(2, "B", Priority::Critical);
    assert!(critical.is_actionable());

    let low = Task::new(3, "C", Priority::Low);
    assert!(!low.is_actionable());

    let mut done = Task::new(4, "D", Priority::High);
    done.toggle_completed();
    assert!(!done.is_actionable());
}

#[test]
fn priority_labels() {
    assert_eq!(Priority::Low.label(), "Low");
    assert_eq!(Priority::Medium.label(), "Medium");
    assert_eq!(Priority::High.label(), "High");
    assert_eq!(Priority::Critical.label(), "Critical");
}

#[test]
fn priority_is_urgent() {
    assert!(!Priority::Low.is_urgent());
    assert!(!Priority::Medium.is_urgent());
    assert!(Priority::High.is_urgent());
    assert!(Priority::Critical.is_urgent());
}

#[test]
fn error_messages_name_the_problem() {
    assert_eq!(TaskError::NotFound(7).message(), "Task not found: 7");
    assert_eq!(TaskError::DuplicateTitle("x".into()).message(), "Duplicate title: x");
    assert_eq!(TaskError::ValidationError("bad".into()).message(), "Validation error: bad");
}

#[test]
fn format_incomplete_task() {
    let task = Task::new(1, "Write docs", Priority::Medium);
    let line = format_task_line(&task);
    assert!(line.contains("○"));
    assert!(line.contains("[!]"));
    assert!(line.contains("Write docs"));
}

#[test]
fn format_completed_task() {
    let mut task = Task::new(1, "Done", Priority::Low);
    task.toggle_completed();
    let line = format_task_line(&task);
    assert!(line.contains("✓"));
}

#[test]
fn format_task_with_tags() {
    let task = Task::new(1, "Task", Priority::High).with_tags(vec!["bug".into(), "ui".into()]);
    let line = format_task_line(&task);
    assert!(line.contains("(bug, ui)"));
}

#[test]
fn format_empty_list() {
    assert_eq!(format_task_list(&[]), "No tasks found.");
}

#[test]
fn format_lines_exactly() {
    let a = Task::new(1, "A", Priority::Critical);
    let b = Task::new(2, "B", Priority::Low).with_tags(vec!["x".into()]);
    assert_eq!(format_task_line(&a), "○ [!!!] A");
    assert_eq!(format_task_list(&[a.clone(), b]), "○ [!!!] A\n○ [ ] B (x)");
    let groups = vec![(Priority::Critical, vec![a]), (Priority::Low, vec![])];
    assert_eq!(format_priority_distribution(&groups), "Critical: 1 task(s)\nLow: 0 task(s)");
    assert_eq!(format_priority_distribution(&[]), "No tasks.");
}
