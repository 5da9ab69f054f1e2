use omnivore::tasks::model::{Priority, Task, TaskError};
use omnivore::tasks::repository::{sort_ids, InMemoryTaskRepository, TaskRepository};

#[test]
fn add_and_get() {
    let mut repo = InMemoryTaskRepository::new();
    let task = Task::new(1, "Test task", Priority::Medium);
    repo.add(task.clone()).unwrap();
    assert_eq!(repo.get_by_id(1).unwrap(), task);
}

#[test]
fn get_nonexistent_returns_error() {
    let repo = InMemoryTaskRepository::new();
    assert!(repo.get_by_id(999).is_err());
}

#[test]
fn duplicate_title_rejected() {
    let mut repo = InMemoryTaskRepository::new();
    repo.add(Task::new(1, "Title", Priority::Low)).unwrap();
    assert!(repo.add(Task::new(2, "title", Priority::High)).is_err());
}

#[test]
fn get_all_sorted() {
    let mut repo = InMemoryTaskRepository::new();
    repo.add(Task::new(3, "Third", Priority::Low)).unwrap();
    repo.add(Task::new(1, "First", Priority::Low)).unwrap();
    repo.add(Task::new(2, "Second", Priority::Low)).unwrap();
    let all = repo.get_all();
    assert_eq!(all.len(), 3);
    assert_eq!(all[0].id, 1);
    assert_eq!(all[2].id, 3);
}

#[test]
fn count_tracks_size() {
    let mut repo = InMemoryTaskRepository::new();
    assert_eq!(repo.count(), 0);
    repo.add(Task::new(1, "A", Priority::Low)).unwrap();
    assert_eq!(repo.count(), 1);
}

#[test]
fn a_written_task_reads_back_and_a_removed_one_is_gone() {
    let mut repo = InMemoryTaskRepository::new();
    let task = Task::new(7, "Seven", Priority::High);
    repo.add(task.clone()).unwrap();
    assert_eq!(repo.get_by_id(7).unwrap(), task);
    let removed = repo.remove(7).unwrap();
    assert_eq!(removed, task);
    assert_eq!(repo.get_by_id(7), Err(TaskError::NotFound(7)));
    assert_eq!(repo.count(), 0);
    assert_eq!(repo.remove(7), Err(TaskError::NotFound(7)));
}

#[test]
fn duplicate_title_error_names_the_title() {
    let mut repo = InMemoryTaskRepository::new();
    repo.add(Task::new(1, "Title", Priority::Low)).unwrap();
    assert_eq!(
        repo.add(Task::new(2, "TITLE", Priority::Low)),
        Err(TaskError::DuplicateTitle("TITLE".to_string()))
    );
    assert_eq!(repo.count(), 1);
}

#[test]
fn update_replaces_a_stored_task_only() {
    let mut repo = InMemoryTaskRepository::new();
    repo.add(Task::new(1, "One", Priority::Low)).unwrap();
    let changed = Task::new(1, "One again", Priority::Critical);
    repo.update(changed.clone()).unwrap();
    assert_eq!(repo.get_by_id(1).unwrap(), changed);
    assert_eq!(repo.update(Task::new(5, "Five", Priority::Low)), Err(TaskError::NotFound(5)));
}

#[test]
fn find_by_tag_picks_the_tagged_tasks() {
    let mut repo = InMemoryTaskRepository::new();
    repo.add(Task::new(2, "B", Priority::Low).with_tags(vec!["x".into()])).unwrap();
    repo.add(Task::new(1, "A", Priority::Low).with_tags(vec!["x".into(), "y".into()])).unwrap();
    repo.add(Task::new(3, "C", Priority::Low).with_tags(vec!["y".into()])).unwrap();
    let found = repo.find_by_tag("X");
    let mut ids: Vec<u64> = found.iter().map(|t| t.id).collect();
    ids.sort();
    assert_eq!(ids, vec![1, 2]);
}

#[test]
fn next_id_counts_up_from_one() {
    let mut repo = InMemoryTaskRepository::new();
    assert_eq!(repo.next_id(), 1);
    assert_eq!(repo.next_id(), 2);
}

#[test]
fn sort_ids_orders_ascending() {
    assert_eq!(sort_ids(vec![5, 1, 3]), vec![1, 3, 5]);
    assert_eq!(sort_ids(vec![]), Vec::<u64>::new());
}

#[test]
fn the_default_repository_is_empty() {
    let mut repo = InMemoryTaskRepository::default();
    assert_eq!(repo.count(), 0);
    assert!(repo.get_all().is_empty());
    assert_eq!(repo.next_id(), 1);
}
