use task_service::errors::CustomError;
use task_service::handlers::{create_user, login};
use task_service::models::{CreateUser, LoginUser, User};
use task_service::security::validate_token;
use task_service::store::UserStore;

/// The scrypt verifier of the password `secret`, with deliberately cheap
/// parameters so the derivation stays well inside the per-test time limit.
const SECRET_VERIFIER: &str =
    "$scrypt$ln=6,r=8,p=1$MDEyMzQ1Njc4OWFiY2RlZg$YPJcqP7h1AjiqKo0RGR+pILh1b9TrNFQ+6bJvKiCzIs";

fn secret() -> Vec<u8> {
    b"test-secret-key".to_vec()
}

fn store_with_alice() -> UserStore {
    let mut users = UserStore::new();
    users.insert(User {
        user_id: 0,
        username: "alice".to_string(),
        password: SECRET_VERIFIER.to_string(),
    });
    users
}

#[test]
fn duplicate_registration_is_refused_with_conflict() {
    let mut users = store_with_alice();
    let again = create_user(
        CreateUser { username: "alice".to_string(), password: "secret".to_string() },
        &mut users,
    );
    match again {
        Err(e) => {
            assert_eq!(e.status_code(), 409);
            assert_eq!(e.message(), "User with name 'alice' already exists.");
        }
        Ok(_) => panic!("a taken username must be refused"),
    }
}

#[test]
fn login_with_wrong_password_is_invalid_credentials() {
    let users = store_with_alice();
    let r = login(
        LoginUser { username: "alice".to_string(), password: "wrong".to_string() },
        &users,
        &secret(),
    );
    match r {
        Err(e @ CustomError::InvalidCredentialsError) => {
            assert_eq!(e.status_code(), 401);
            assert_eq!(e.message(), "Invalid Credentials.");
        }
        _ => panic!("wrong password must yield InvalidCredentialsError"),
    }
}

#[test]
fn login_of_unknown_user_is_invalid_credentials() {
    let users = UserStore::new();
    let r = login(
        LoginUser { username: "nobody".to_string(), password: "secret".to_string() },
        &users,
        &secret(),
    );
    match r {
        Err(CustomError::InvalidCredentialsError) => {}
        _ => panic!("unknown user must yield InvalidCredentialsError"),
    }
}

#[test]
fn login_with_the_stored_password_yields_token_for_subject() {
    let users = store_with_alice();
    let token = login(
        LoginUser { username: "alice".to_string(), password: "secret".to_string() },
        &users,
        &secret(),
    )
    .expect("login with the stored password must succeed");
    let sub = validate_token(token.as_str(), &secret())
        .expect("a freshly minted token must validate");
    assert_eq!(sub, "alice");
}
