//! The two login decisions: the administrator's fixed credentials, and an
//! end user's bcrypt-checked password. Each mints signed claims on success.
use crate::claims::{Claims, ClaimsView};
use crate::codec::{create_token, token_of};
use crate::config::Config;
use crate::ext::{bcrypt_accepts, bcrypt_hash_parses};
use crate::models::{LoginRequest, LoginResponse, User};
use vstd::prelude::*;
use vstd::utf8::encode_utf8;

verus! {

/// Why a login failed.
#[derive(Debug, Clone, Copy, PartialEq, Eq, Structural)]
pub enum LoginError {
    /// Unknown username or wrong password.
    InvalidCredentials,
    /// The administrator credentials did not match.
    InvalidAdminCredentials,
    /// A fault in the password check or in signing: a server error, not a
    /// credential problem.
    ServerFault,
}

impl LoginError {
    pub open spec fn status_spec(self) -> u16 {
        match self {
            LoginError::InvalidCredentials => 401,
            LoginError::InvalidAdminCredentials => 401,
            LoginError::ServerFault => 500,
        }
    }

    pub open spec fn message_spec(self) -> Seq<char> {
        match self {
            LoginError::InvalidCredentials => "Invalid credentials"@,
            LoginError::InvalidAdminCredentials => "Invalid admin credentials"@,
            LoginError::ServerFault => "Internal server error"@,
        }
    }

    pub fn status_code(&self) -> (r: u16)
        ensures
            r == self.status_spec(),
    {
        match self {
            LoginError::InvalidCredentials => 401,
            LoginError::InvalidAdminCredentials => 401,
            LoginError::ServerFault => 500,
        }
    }

    pub fn message(&self) -> (r: &'static str)
        ensures
            r@ == self.message_spec(),
    {
        match self {
            LoginError::InvalidCredentials => "Invalid credentials",
            LoginError::InvalidAdminCredentials => "Invalid admin credentials",
            LoginError::ServerFault => "Internal server error",
        }
    }
}

/// The claims an administrator login issued at time `now` signs.
pub open spec fn admin_login_claims(username: Seq<char>, now: u64) -> ClaimsView {
    ClaimsView { sub: username, user_id: None, is_admin: true, exp: crate::claims::exp_at(now, 24) }
}

/// The claims a user login for the stored record `u` issued at time `now`
/// signs.
pub open spec fn user_login_claims(u: User, now: u64) -> ClaimsView {
    ClaimsView {
        sub: u.username@,
        user_id: Some(u.id),
        is_admin: false,
        exp: crate::claims::exp_at(now, 24),
    }
}

/// The administrator login decision at time `now`: succeeds exactly when
/// both configured credentials match, answering with a token over admin
/// claims that expire 24 hours later.
pub fn admin_login_at(req: &LoginRequest, config: &Config, now: u64) -> (r: Result<
    LoginResponse,
    LoginError,
>)
    ensures
        r is Ok <==> req.username@ == config.admin_username@ && req.password@
            == config.admin_password@,
        r matches Ok(resp) ==> resp.username@ == req.username@ && resp.is_admin == true
            && encode_utf8(resp.token@) == token_of(
            admin_login_claims(req.username@, now),
            config.jwt_secret@,
        ),
        r matches Err(e) ==> e == LoginError::InvalidAdminCredentials,
{
    if !(req.username == config.admin_username && req.password == config.admin_password) {
        return Err(LoginError::InvalidAdminCredentials);
    }
    let claims = Claims::new_admin_at(req.username.clone(), 24, now);
    match create_token(&claims, config.jwt_secret.as_str()) {
        Ok(token) => {
            proof {
                assert(claims@ == admin_login_claims(req.username@, now));
            }
            Ok(LoginResponse { token, username: req.username.clone(), is_admin: true })
        },
        Err(_) => Err(LoginError::ServerFault),
    }
}

/// Logs the administrator in at the current time.
pub fn admin_login(req: &LoginRequest, config: &Config) -> (r: Result<LoginResponse, LoginError>)
    ensures
        r is Ok <==> req.username@ == config.admin_username@ && req.password@
            == config.admin_password@,
        r matches Ok(resp) ==> resp.username@ == req.username@ && resp.is_admin == true && exists|
            now: u64,
        |
            encode_utf8(resp.token@) == token_of(
                admin_login_claims(req.username@, now),
                config.jwt_secret@,
            ),
        r matches Err(e) ==> e == LoginError::InvalidAdminCredentials,
{
    admin_login_at(req, config, crate::claims::now_or_zero())
}

/// The user login decision at time `now`, against the record the store
/// found (or did not find) for the requested username. Succeeds exactly
/// when a record exists, its hash parses, and bcrypt accepts the password;
/// the token then carries the record's username and id and expires 24 hours
/// later. An unknown username and a wrong password are indistinguishable;
/// only an unparsable stored hash is a server fault.
pub fn user_login_at(req: &LoginRequest, user: Option<&User>, jwt_secret: &str, now: u64) -> (r:
    Result<LoginResponse, LoginError>)
    ensures
        user is None ==> r == Err::<LoginResponse, LoginError>(LoginError::InvalidCredentials),
        user matches Some(u) ==> (r == Err::<LoginResponse, LoginError>(LoginError::ServerFault)
            <==> !bcrypt_hash_parses(u.password_hash@)),
        user matches Some(u) ==> (bcrypt_hash_parses(u.password_hash@) ==> (r is Ok
            <==> bcrypt_accepts(req.password@, u.password_hash@))),
        user matches Some(u) ==> (bcrypt_hash_parses(u.password_hash@) && !bcrypt_accepts(
            req.password@,
            u.password_hash@,
        ) ==> r == Err::<LoginResponse, LoginError>(LoginError::InvalidCredentials)),
        r matches Ok(resp) ==> user matches Some(u) && resp.username@ == u.username@
            && resp.is_admin == false && encode_utf8(resp.token@) == token_of(
            user_login_claims(*u, now),
            jwt_secret@,
        ),
{
    let u = match user {
        None => {
            return Err(LoginError::InvalidCredentials);
        },
        Some(u) => u,
    };
    let valid = match crate::ext::bcrypt_verify(req.password.as_str(), u.password_hash.as_str()) {
        None => {
            return Err(LoginError::ServerFault);
        },
        Some(v) => v,
    };
    if !valid {
        return Err(LoginError::InvalidCredentials);
    }
    let claims = Claims::new_user_at(u.username.clone(), u.id, 24, now);
    match create_token(&claims, jwt_secret) {
        Ok(token) => {
            proof {
                assert(claims@ == user_login_claims(*u, now));
            }
            Ok(LoginResponse { token, username: u.username.clone(), is_admin: false })
        },
        Err(_) => Err(LoginError::ServerFault),
    }
}

/// Logs an end user in at the current time.
pub fn user_login(req: &LoginRequest, user: Option<&User>, jwt_secret: &str) -> (r: Result<
    LoginResponse,
    LoginError,
>)
    ensures
        user is None ==> r == Err::<LoginResponse, LoginError>(LoginError::InvalidCredentials),
        user matches Some(u) ==> (r == Err::<LoginResponse, LoginError>(LoginError::ServerFault)
            <==> !bcrypt_hash_parses(u.password_hash@)),
        user matches Some(u) ==> (bcrypt_hash_parses(u.password_hash@) ==> (r is Ok
            <==> bcrypt_accepts(req.password@, u.password_hash@))),
        user matches Some(u) ==> (bcrypt_hash_parses(u.password_hash@) && !bcrypt_accepts(
            req.password@,
            u.password_hash@,
        ) ==> r == Err::<LoginResponse, LoginError>(LoginError::InvalidCredentials)),
        r matches Ok(resp) ==> user matches Some(u) && resp.username@ == u.username@
            && resp.is_admin == false && exists|now: u64|
            encode_utf8(resp.token@) == token_of(user_login_claims(*u, now), jwt_secret@),
{
    user_login_at(req, user, jwt_secret, crate::claims::now_or_zero())
}

} // verus!
