use task_service::errors::CustomError;
use task_service::handlers::{
    create_task_item, delete_task_by_id, get_task_items, update_task_by_id,
};
use task_service::models::{TaskItem, UpdateTaskItem};
use task_service::store::TaskStore;

fn blank_task(name: &str, description: &str, deadline: &str) -> TaskItem {
    TaskItem {
        item_id: None,
        name: name.to_string(),
        description: description.to_string(),
        created_at: None,
        modified_at: None,
        user_as: None,
        deadline: deadline.to_string(),
    }
}

#[test]
fn create_stamps_id_owner_and_creation_time() {
    let mut tasks = TaskStore::new();
    let created = create_task_item(
        blank_task("buy milk", "2L", "2030-01-01"),
        &mut tasks,
        "alice".to_string(),
    );
    assert_eq!(created.item_id, Some(0));
    assert_eq!(created.name, "buy milk");
    assert_eq!(created.description, "2L");
    assert_eq!(created.deadline, "2030-01-01");
    assert_eq!(created.user_as.as_deref(), Some("alice"));
    assert!(created.created_at.is_some());
    assert!(created.modified_at.is_none());
}

#[test]
fn listing_shows_only_the_owners_tasks() {
    let mut tasks = TaskStore::new();
    create_task_item(blank_task("buy milk", "2L", "2030-01-01"), &mut tasks, "alice".to_string());
    let mine = get_task_items(&tasks, "alice".to_string());
    assert_eq!(mine.len(), 1);
    assert_eq!(mine[0].item_id, Some(0));
    let theirs = get_task_items(&tasks, "bob".to_string());
    assert!(theirs.is_empty());
}

#[test]
fn update_by_non_owner_is_refused_and_mutates_nothing() {
    let mut tasks = TaskStore::new();
    create_task_item(blank_task("buy milk", "2L", "2030-01-01"), &mut tasks, "alice".to_string());
    let r = update_task_by_id(
        0,
        UpdateTaskItem { name: Some("hacked".to_string()), description: None, deadline: None },
        &mut tasks,
        "bob".to_string(),
    );
    match r {
        Err(e @ CustomError::NotAuthorizedError) => assert_eq!(e.status_code(), 403),
        _ => panic!("an update by a non-owner must be refused"),
    }
    let mine = get_task_items(&tasks, "alice".to_string());
    assert_eq!(mine[0].name, "buy milk");
    assert!(mine[0].modified_at.is_none());
}

#[test]
fn update_by_owner_applies_fields_and_stamps_modification() {
    let mut tasks = TaskStore::new();
    create_task_item(blank_task("buy milk", "2L", "2030-01-01"), &mut tasks, "alice".to_string());
    let updated = update_task_by_id(
        0,
        UpdateTaskItem { name: Some("hacked".to_string()), description: None, deadline: None },
        &mut tasks,
        "alice".to_string(),
    )
    .expect("the owner may update")
    .expect("the task exists");
    assert_eq!(updated.name, "hacked");
    assert_eq!(updated.description, "2L");
    assert_eq!(updated.deadline, "2030-01-01");
    assert!(updated.modified_at.is_some());
    assert_eq!(updated.user_as.as_deref(), Some("alice"));
}

#[test]
fn update_of_missing_id_reports_not_found() {
    let mut tasks = TaskStore::new();
    let r = update_task_by_id(
        99,
        UpdateTaskItem { name: None, description: None, deadline: None },
        &mut tasks,
        "alice".to_string(),
    );
    match r {
        Ok(None) => {}
        _ => panic!("a missing id must report not found"),
    }
}

#[test]
fn delete_of_missing_id_reports_not_found() {
    let mut tasks = TaskStore::new();
    create_task_item(blank_task("buy milk", "2L", "2030-01-01"), &mut tasks, "alice".to_string());
    match delete_task_by_id(99, &mut tasks, "alice".to_string()) {
        Ok(None) => {}
        _ => panic!("a missing id must report not found"),
    }
}

#[test]
fn delete_by_non_owner_is_refused() {
    let mut tasks = TaskStore::new();
    create_task_item(blank_task("buy milk", "2L", "2030-01-01"), &mut tasks, "alice".to_string());
    match delete_task_by_id(0, &mut tasks, "bob".to_string()) {
        Err(CustomError::NotAuthorizedError) => {}
        _ => panic!("a delete by a non-owner must be refused"),
    }
    assert_eq!(get_task_items(&tasks, "alice".to_string()).len(), 1);
}

#[test]
fn delete_by_owner_echoes_id_and_empties_listing() {
    let mut tasks = TaskStore::new();
    create_task_item(blank_task("buy milk", "2L", "2030-01-01"), &mut tasks, "alice".to_string());
    match delete_task_by_id(0, &mut tasks, "alice".to_string()) {
        Ok(Some(gone)) => assert_eq!(gone, 0),
        _ => panic!("the owner may delete"),
    }
    assert!(get_task_items(&tasks, "alice".to_string()).is_empty());
}
