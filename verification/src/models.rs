use vstd::prelude::*;

verus! {

/// A stored account: its id, its name, and the scrypt verifier of its password.
#[derive(Debug, Clone)]
pub struct User {
    pub user_id: usize,
    pub username: String,
    pub password: String,
}

/// The body of a registration request.
#[derive(Debug, Clone)]
pub struct CreateUser {
    pub username: String,
    pub password: String,
}

/// The body of a login request.
#[derive(Debug, Clone)]
pub struct LoginUser {
    pub username: String,
    pub password: String,
}

/// The claims carried by a bearer token: the subject and the expiry,
/// as seconds since the Unix epoch.
#[derive(Debug, Clone)]
pub struct Claims {
    pub sub: String,
    pub exp: usize,
}

/// A minted token, ready to hand back to a client.
#[derive(Debug, Clone)]
pub struct LoginResponse {
    pub token: String,
}

/// A task record. `item_id`, `user_as`, `created_at` and `modified_at`
/// are filled by the service, not by the client.
#[derive(Debug, Clone)]
pub struct TaskItem {
    pub item_id: Option<usize>,
    pub name: String,
    pub description: String,
    pub created_at: Option<String>,
    pub modified_at: Option<String>,
    pub user_as: Option<String>,
    pub deadline: String,
}

/// The body of an update request; an absent field leaves the stored value.
#[derive(Debug, Clone)]
pub struct UpdateTaskItem {
    pub name: Option<String>,
    pub description: Option<String>,
    pub deadline: Option<String>,
}

pub(crate) fn clone_opt_string(o: &Option<String>) -> (r: Option<String>)
    ensures
        r == *o,
{
    match o {
        Some(s) => Some(s.clone()),
        None => None,
    }
}

impl User {
    /// A field-for-field copy, with the copy's value pinned down.
    pub fn duplicate(&self) -> (r: User)
        ensures
            r == *self,
    {
        User {
            user_id: self.user_id,
            username: self.username.clone(),
            password: self.password.clone(),
        }
    }
}

impl TaskItem {
    /// A field-for-field copy, with the copy's value pinned down.
    pub fn duplicate(&self) -> (r: TaskItem)
        ensures
            r == *self,
    {
        TaskItem {
            item_id: self.item_id,
            name: self.name.clone(),
            description: self.description.clone(),
            created_at: clone_opt_string(&self.created_at),
            modified_at: clone_opt_string(&self.modified_at),
            user_as: clone_opt_string(&self.user_as),
            deadline: self.deadline.clone(),
        }
    }
}

} // verus!
