use omnivore::tasks::model::{Priority, TaskError};
use omnivore::tasks::repository::{InMemoryTaskRepository, TaskRepository};
use omnivore::tasks::usecase::{add_task, get_stats, get_tasks, get_tasks_by_priority, remove_task, toggle_task, TaskStats};

fn completion_rate(stats: &TaskStats) -> f64 {
    if stats.total == 0 {
        0.0
    } else {
        stats.completed as f64 / stats.total as f64
    }
}

#[test]
fn add_task_success() {
    let mut repo = InMemoryTaskRepository::new();
    let task = add_task(&mut repo, 1, "New task", Priority::Medium, None, vec![]).unwrap();
    assert_eq!(task.title, "New task");
    assert_eq!(repo.count(), 1);
}

#[test]
fn add_task_with_description_and_tags() {
    let mut repo = InMemoryTaskRepository::new();
    let task = add_task(
        &mut repo,
        1,
        "Tagged task",
        Priority::High,
        Some("A  detailed   description"),
        vec!["backend".into(), "urgent".into()],
    )
    .unwrap();
    assert_eq!(task.description, "A detailed description");
    assert_eq!(task.tags.len(), 2);
}

#[test]
fn add_task_invalid_title() {
    let mut repo = InMemoryTaskRepository::new();
    assert!(add_task(&mut repo, 1, "", Priority::Low, None, vec![]).is_err());
}

#[test]
fn add_task_invalid_tag() {
    let mut repo = InMemoryTaskRepository::new();
    assert!(add_task(&mut repo, 1, "Task", Priority::Low, None, vec!["bad tag".into()]).is_err());
}

#[test]
fn get_tasks_all() {
    let mut repo = InMemoryTaskRepository::new();
    add_task(&mut repo, 1, "Alpha", Priority::Low, None, vec![]).unwrap();
    add_task(&mut repo, 2, "Beta", Priority::High, None, vec![]).unwrap();
    assert_eq!(get_tasks(&repo, None).len(), 2);
}

#[test]
fn get_tasks_filtered() {
    let mut repo = InMemoryTaskRepository::new();
    add_task(&mut repo, 1, "Fix login", Priority::High, None, vec![]).unwrap();
    add_task(&mut repo, 2, "Add signup", Priority::Medium, None, vec![]).unwrap();
    let results = get_tasks(&repo, Some("login"));
    assert_eq!(results.len(), 1);
    assert_eq!(results[0].title, "Fix login");
}

#[test]
fn get_stats_empty() {
    let repo = InMemoryTaskRepository::new();
    let stats = get_stats(&repo);
    assert_eq!(stats.total, 0);
    assert_eq!(completion_rate(&stats), 0.0);
}

#[test]
fn get_stats_mixed() {
    let mut repo = InMemoryTaskRepository::new();
    add_task(&mut repo, 1, "Done", Priority::Low, None, vec![]).unwrap();
    toggle_task(&mut repo, 1).unwrap();
    add_task(&mut repo, 2, "Pending", Priority::High, None, vec![]).unwrap();
    let stats = get_stats(&repo);
    assert_eq!(stats.total, 2);
    assert_eq!(stats.completed, 1);
    assert_eq!(stats.pending, 1);
    assert_eq!(stats.actionable, 1);
    assert_eq!(completion_rate(&stats), 0.5);
}

#[test]
fn toggling_twice_restores_the_task() {
    let mut repo = InMemoryTaskRepository::new();
    let added = add_task(&mut repo, 1, "Flip", Priority::Low, None, vec![]).unwrap();
    let once = toggle_task(&mut repo, 1).unwrap();
    assert!(once.completed);
    let twice = toggle_task(&mut repo, 1).unwrap();
    assert_eq!(twice, added);
    assert_eq!(toggle_task(&mut repo, 9), Err(TaskError::NotFound(9)));
}

#[test]
fn remove_task_takes_it_out() {
    let mut repo = InMemoryTaskRepository::new();
    add_task(&mut repo, 1, "Gone", Priority::Low, None, vec![]).unwrap();
    assert_eq!(remove_task(&mut repo, 1).unwrap().title, "Gone");
    assert_eq!(repo.count(), 0);
    assert_eq!(remove_task(&mut repo, 1), Err(TaskError::NotFound(1)));
}

#[test]
fn add_task_validation_errors_carry_their_message() {
    let mut repo = InMemoryTaskRepository::new();
    let err = add_task(&mut repo, 1, "", Priority::Low, None, vec![]).unwrap_err();
    assert!(matches!(err, TaskError::ValidationError(_)));
    let dup = add_task(&mut repo, 2, "Same", Priority::Low, None, vec![]);
    assert!(dup.is_ok());
    assert_eq!(
        add_task(&mut repo, 3, "same", Priority::Low, None, vec![]),
        Err(TaskError::DuplicateTitle("same".to_string()))
    );
}

#[test]
fn tasks_group_by_priority_most_urgent_first() {
    let mut repo = InMemoryTaskRepository::new();
    add_task(&mut repo, 1, "L", Priority::Low, None, vec![]).unwrap();
    add_task(&mut repo, 2, "C", Priority::Critical, None, vec![]).unwrap();
    add_task(&mut repo, 3, "L2", Priority::Low, None, vec![]).unwrap();
    let groups = get_tasks_by_priority(&repo);
    assert_eq!(groups.len(), 2);
    assert_eq!(groups[0].0, Priority::Critical);
    assert_eq!(groups[0].1.len(), 1);
    assert_eq!(groups[1].0, Priority::Low);
    assert_eq!(groups[1].1.len(), 2);
}
