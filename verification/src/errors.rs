use vstd::prelude::*;
use vstd::string::StringExecFns;

verus! {

/// The error kinds the service distinguishes, each mapped to a stable
/// HTTP status by `status_code`.
#[derive(Debug, Clone)]
pub enum CustomError {
    UserExistsError(String),
    InvalidCredentialsError,
    AuthHeaderRequiredError,
    InvalidAuthHeaderError,
    InvalidJWTTokenError,
    NotAuthorizedError,
}

impl CustomError {
    /// The HTTP status this error kind maps to.
    pub fn status_code(&self) -> (code: u16)
        ensures
            code == self.spec_status_code(),
    {
        match self {
            CustomError::UserExistsError(_) => 409,
            CustomError::InvalidCredentialsError => 401,
            CustomError::AuthHeaderRequiredError => 401,
            CustomError::InvalidAuthHeaderError => 400,
            CustomError::InvalidJWTTokenError => 401,
            CustomError::NotAuthorizedError => 403,
        }
    }

    pub open spec fn spec_status_code(self) -> u16 {
        match self {
            CustomError::UserExistsError(_) => 409,
            CustomError::InvalidCredentialsError => 401,
            CustomError::AuthHeaderRequiredError => 401,
            CustomError::InvalidAuthHeaderError => 400,
            CustomError::InvalidJWTTokenError => 401,
            CustomError::NotAuthorizedError => 403,
        }
    }

    pub open spec fn spec_message(self) -> Seq<char> {
        match self {
            CustomError::UserExistsError(n) => "User with name '"@ + n@ + "' already exists."@,
            CustomError::InvalidCredentialsError => "Invalid Credentials."@,
            CustomError::AuthHeaderRequiredError => "Authorization Header Required."@,
            CustomError::InvalidAuthHeaderError => "Invalid Auth Header."@,
            CustomError::InvalidJWTTokenError => "Invalid JWT Token."@,
            CustomError::NotAuthorizedError => "Not Authorized for given action."@,
        }
    }

    /// The message the service puts in the error body for this kind.
    pub fn message(&self) -> (m: String)
        ensures
            m@ == self.spec_message(),
    {
        match self {
            CustomError::UserExistsError(n) => {
                let mut m = String::from_str("User with name '");
                m.append(n.as_str());
                m.append("' already exists.");
                m
            },
            CustomError::InvalidCredentialsError => String::from_str("Invalid Credentials."),
            CustomError::AuthHeaderRequiredError => String::from_str(
                "Authorization Header Required.",
            ),
            CustomError::InvalidAuthHeaderError => String::from_str("Invalid Auth Header."),
            CustomError::InvalidJWTTokenError => String::from_str("Invalid JWT Token."),
            CustomError::NotAuthorizedError => String::from_str(
                "Not Authorized for given action.",
            ),
        }
    }
}

} // verus!
