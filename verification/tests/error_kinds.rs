use task_service::errors::CustomError;
use task_service::handlers::{create_task_item, delete_task_by_id, get_task_items};
use task_service::models::TaskItem;
use task_service::store::TaskStore;

#[test]
fn every_error_kind_maps_to_its_status_and_message() {
    let cases: Vec<(CustomError, u16, &str)> = vec![
        (
            CustomError::UserExistsError("bob".to_string()),
            409,
            "User with name 'bob' already exists.",
        ),
        (CustomError::InvalidCredentialsError, 401, "Invalid Credentials."),
        (CustomError::AuthHeaderRequiredError, 401, "Authorization Header Required."),
        (CustomError::InvalidAuthHeaderError, 400, "Invalid Auth Header."),
        (CustomError::InvalidJWTTokenError, 401, "Invalid JWT Token."),
        (CustomError::NotAuthorizedError, 403, "Not Authorized for given action."),
    ];
    for (e, status, message) in cases {
        assert_eq!(e.status_code(), status);
        assert_eq!(e.message(), message);
    }
}

fn blank_task(name: &str) -> TaskItem {
    TaskItem {
        item_id: None,
        name: name.to_string(),
        description: "d".to_string(),
        created_at: None,
        modified_at: None,
        user_as: None,
        deadline: "2030-01-01".to_string(),
    }
}

/// Ids are assigned as the store's size, so a create after a delete reuses
/// an id and overwrites the record under it.
#[test]
fn create_after_delete_reuses_the_id_and_overwrites() {
    let mut tasks = TaskStore::new();
    create_task_item(blank_task("first"), &mut tasks, "alice".to_string());
    create_task_item(blank_task("second"), &mut tasks, "alice".to_string());
    delete_task_by_id(0, &mut tasks, "alice".to_string()).expect("the owner may delete");
    let third = create_task_item(blank_task("third"), &mut tasks, "alice".to_string());
    assert_eq!(third.item_id, Some(1));
    let listing = get_task_items(&tasks, "alice".to_string());
    assert_eq!(listing.len(), 1);
    assert_eq!(listing[0].name, "third");
}
