//! Plain data carried between the handlers and the library.
use vstd::prelude::*;

verus! {

/// A stored user record, as the store hands it out.
#[derive(Debug, Clone)]
pub struct User {
    pub id: i64,
    pub username: String,
    pub password_hash: String,
    pub json_data: String,
    pub created_at: String,
}

#[derive(Debug)]
pub struct CreateUserRequest {
    pub username: String,
    pub password: String,
}

#[derive(Debug)]
pub struct LoginRequest {
    pub username: String,
    pub password: String,
}

#[derive(Debug)]
pub struct LoginResponse {
    pub token: String,
    pub username: String,
    pub is_admin: bool,
}

/// A user record with the password hash and blob left out.
#[derive(Debug)]
pub struct UserResponse {
    pub id: i64,
    pub username: String,
    pub created_at: String,
}

#[derive(Debug)]
pub struct MessageResponse {
    pub message: String,
}

impl From<User> for UserResponse {
    /// Drops the password hash and the settings blob from a record.
    fn from(user: User) -> (r: UserResponse) {
        UserResponse { id: user.id, username: user.username, created_at: user.created_at }
    }
}

impl vstd::std_specs::convert::FromSpecImpl<User> for UserResponse {
    open spec fn obeys_from_spec() -> bool {
        true
    }

    open spec fn from_spec(user: User) -> Self {
        UserResponse { id: user.id, username: user.username, created_at: user.created_at }
    }
}

} // verus!
