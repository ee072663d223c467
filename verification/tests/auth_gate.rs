use task_service::errors::CustomError;
use task_service::models::User;
use task_service::security::{authorize, get_jwt_for_user, jwt_from_header};

fn secret() -> Vec<u8> {
    b"gate-test-key".to_vec()
}

#[test]
fn missing_header_requires_authorization() {
    match authorize(None, &secret()) {
        Err(e @ CustomError::AuthHeaderRequiredError) => {
            assert_eq!(e.status_code(), 401);
            assert_eq!(e.message(), "Authorization Header Required.");
        }
        _ => panic!("a missing header must ask for authorization"),
    }
}

#[test]
fn non_utf8_header_requires_authorization() {
    let bytes: Vec<u8> = vec![0xff, 0xfe, 0x42];
    match authorize(Some(&bytes), &secret()) {
        Err(CustomError::AuthHeaderRequiredError) => {}
        _ => panic!("a non-UTF-8 header must ask for authorization"),
    }
}

#[test]
fn header_without_bearer_prefix_is_invalid() {
    for h in ["Basic abc", "bearer abc", "Bearer", "Bearerabc", ""] {
        let bytes = h.as_bytes().to_vec();
        match authorize(Some(&bytes), &secret()) {
            Err(e @ CustomError::InvalidAuthHeaderError) => {
                assert_eq!(e.status_code(), 400);
            }
            _ => panic!("a header without the exact prefix must be invalid"),
        }
    }
}

#[test]
fn bearer_prefix_yields_the_raw_token() {
    let bytes = b"Bearer abc.def.ghi".to_vec();
    let token = jwt_from_header(Some(&bytes)).expect("a bearer header yields its token");
    assert_eq!(token, "abc.def.ghi");
}

#[test]
fn gate_accepts_a_freshly_minted_token() {
    let user = User {
        user_id: 0,
        username: "alice".to_string(),
        password: "unused".to_string(),
    };
    let token = get_jwt_for_user(&user, &secret());
    let header = format!("Bearer {}", token).into_bytes();
    let sub = authorize(Some(&header), &secret()).expect("a live token is accepted");
    assert_eq!(sub, "alice");
}

#[test]
fn gate_refuses_a_token_under_another_secret() {
    let user = User {
        user_id: 0,
        username: "alice".to_string(),
        password: "unused".to_string(),
    };
    let token = get_jwt_for_user(&user, b"some-other-key");
    let header = format!("Bearer {}", token).into_bytes();
    match authorize(Some(&header), &secret()) {
        Err(e @ CustomError::InvalidJWTTokenError) => {
            assert_eq!(e.status_code(), 401);
            assert_eq!(e.message(), "Invalid JWT Token.");
        }
        _ => panic!("a token under another secret must be refused"),
    }
}
