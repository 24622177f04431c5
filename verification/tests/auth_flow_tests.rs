use streamplay_auth::claims::Claims;
use streamplay_auth::codec::{create_token, verify_token_at, AuthError};
use streamplay_auth::config::{Config, ConfigError};
use streamplay_auth::extract::{AdminUser, AuthRejection, AuthUser, JwtSecret};
use streamplay_auth::login::{admin_login, admin_login_at, user_login, user_login_at, LoginError};
use streamplay_auth::models::{LoginRequest, User, UserResponse};

const NOW: u64 = 1_700_000_000;

fn bearer(token: &str) -> Vec<u8> {
    format!("Bearer {}", token).into_bytes()
}

fn secret() -> JwtSecret {
    JwtSecret(String::from("s3cr3t"))
}

fn user_token(name: &str, id: i64) -> String {
    let c = Claims::new_user_at(String::from(name), id, 24, NOW);
    create_token(&c, "s3cr3t").unwrap()
}

fn admin_token(name: &str) -> String {
    let c = Claims::new_admin_at(String::from(name), 24, NOW);
    create_token(&c, "s3cr3t").unwrap()
}

#[test]
fn missing_header_is_unauthorized() {
    let r = AuthUser::from_header(None, &secret(), NOW);
    let e = r.err().unwrap();
    assert_eq!(e, AuthRejection::MissingAuthHeader);
    assert_eq!(e.status_code(), 401);
    assert_eq!(e.message(), "Missing authorization header");
}

#[test]
fn non_bearer_header_is_unauthorized() {
    let h = b"Basic dXNlcjpwdw==".to_vec();
    let r = AuthUser::from_header(Some(&h), &secret(), NOW);
    assert_eq!(r.err().unwrap(), AuthRejection::MissingAuthHeader);
}

#[test]
fn expired_token_is_unauthorized() {
    let h = bearer(&user_token("alice", 7));
    let r = AuthUser::from_header(Some(&h), &secret(), NOW + 25 * 3600);
    let e = r.err().unwrap();
    assert_eq!(e, AuthRejection::InvalidToken);
    assert_eq!(e.status_code(), 401);
    assert_eq!(e.message(), "Invalid token");
}

#[test]
fn valid_token_authenticates() {
    let h = bearer(&user_token("alice", 7));
    let u = AuthUser::from_header(Some(&h), &secret(), NOW + 10).unwrap();
    assert_eq!(u.0.sub, "alice");
    assert_eq!(u.0.user_id, Some(7));
    assert!(!u.0.is_admin);
}

#[test]
fn user_token_cannot_pass_admin_gate() {
    let h = bearer(&user_token("alice", 7));
    let r = AdminUser::from_header(Some(&h), &secret(), NOW + 10);
    let e = r.err().unwrap();
    assert_eq!(e, AuthRejection::AdminRequired);
    assert_eq!(e.status_code(), 403);
    assert_eq!(e.message(), "Admin access required");
}

#[test]
fn admin_token_passes_admin_gate() {
    let h = bearer(&admin_token("root"));
    let a = AdminUser::from_header(Some(&h), &secret(), NOW + 10).unwrap();
    assert!(a.0.is_admin);
    assert_eq!(a.0.sub, "root");
}

#[test]
fn wrong_secret_token_is_unauthorized() {
    let c = Claims::new_user_at(String::from("alice"), 7, 24, NOW);
    let t = create_token(&c, "another-secret").unwrap();
    let h = bearer(&t);
    let r = AuthUser::from_header(Some(&h), &secret(), NOW + 10);
    assert_eq!(r.err().unwrap(), AuthRejection::InvalidToken);
}

#[test]
fn user_scoped_operation_resolves_user_id() {
    let stored = User {
        id: 7,
        username: String::from("alice"),
        password_hash: bcrypt::hash("wonderland", 4).unwrap(),
        json_data: String::from("{}"),
        created_at: String::from("2024-01-01"),
    };
    let req = LoginRequest {
        username: String::from("alice"),
        password: String::from("wonderland"),
    };
    let resp = user_login(&req, Some(&stored), "s3cr3t").unwrap();
    assert_eq!(resp.username, "alice");
    assert!(!resp.is_admin);
    let h = bearer(&resp.token);
    let u = AuthUser::from_header(Some(&h), &secret(), NOW).unwrap();
    assert_eq!(u.require_user_id().unwrap(), 7);
}

#[test]
fn admin_token_refused_for_user_scoped_operation() {
    let h = bearer(&admin_token("root"));
    let u = AuthUser::from_header(Some(&h), &secret(), NOW + 10).unwrap();
    let e = u.require_user_id().err().unwrap();
    assert_eq!(e, AuthRejection::UserIdentityRequired);
    assert_eq!(e.status_code(), 403);
    assert_eq!(e.message(), "Operation requires a user identity");
}

fn test_config() -> Config {
    Config::from_values(
        Some(String::from("root")),
        Some(String::from("hunter2")),
        Some(String::from("s3cr3t")),
        None,
        None,
    )
    .unwrap()
}

#[test]
fn admin_login_accepts_configured_credentials() {
    let req = LoginRequest {
        username: String::from("root"),
        password: String::from("hunter2"),
    };
    let resp = admin_login(&req, &test_config()).unwrap();
    assert_eq!(resp.username, "root");
    assert!(resp.is_admin);
    let h = bearer(&resp.token);
    let a = AdminUser::from_header(Some(&h), &secret(), NOW);
    assert!(a.is_ok());
}

#[test]
fn admin_login_rejects_wrong_credentials() {
    let req = LoginRequest {
        username: String::from("root"),
        password: String::from("guess"),
    };
    let e = admin_login(&req, &test_config()).err().unwrap();
    assert_eq!(e, LoginError::InvalidAdminCredentials);
    assert_eq!(e.status_code(), 401);
    assert_eq!(e.message(), "Invalid admin credentials");
}

#[test]
fn user_login_rejects_unknown_user_and_wrong_password() {
    let req = LoginRequest {
        username: String::from("alice"),
        password: String::from("wrong"),
    };
    assert_eq!(
        user_login(&req, None, "s3cr3t").err().unwrap(),
        LoginError::InvalidCredentials
    );
    let stored = User {
        id: 7,
        username: String::from("alice"),
        password_hash: bcrypt::hash("wonderland", 4).unwrap(),
        json_data: String::from("{}"),
        created_at: String::from("2024-01-01"),
    };
    let e = user_login(&req, Some(&stored), "s3cr3t").err().unwrap();
    assert_eq!(e, LoginError::InvalidCredentials);
    assert_eq!(e.status_code(), 401);
}

#[test]
fn config_requires_admin_credentials() {
    let e = Config::from_values(None, None, None, None, None).err().unwrap();
    assert_eq!(e, ConfigError::MissingAdminUsername);
    assert_eq!(e.message(), "ADMIN_USERNAME must be set");
    let e = Config::from_values(Some(String::from("root")), None, None, None, None)
        .err()
        .unwrap();
    assert_eq!(e, ConfigError::MissingAdminPassword);
}

#[test]
fn config_defaults_and_port_parsing() {
    let c = Config::from_values(
        Some(String::from("root")),
        Some(String::from("pw")),
        None,
        None,
        Some(String::from("8080")),
    )
    .unwrap();
    assert_eq!(c.jwt_secret, "default-secret-change-in-production");
    assert_eq!(c.database_url, "sqlite:data.db?mode=rwc");
    assert_eq!(c.server_port, 8080);
    let d = Config::from_values(Some(String::from("r")), Some(String::from("p")), None, None, None)
        .unwrap();
    assert_eq!(d.server_port, 3000);
    // everything u16's own parser takes: leading zeros and a plus sign too
    for (text, port) in [("0080", 80u16), ("+80", 80), ("00000065535", 65535), ("+0", 0)] {
        let c = Config::from_values(
            Some(String::from("r")),
            Some(String::from("p")),
            None,
            None,
            Some(String::from(text)),
        )
        .unwrap();
        assert_eq!(c.server_port, port, "{}", text);
        assert_eq!(text.parse::<u16>().unwrap(), port);
    }
    for bad in ["", "port", "70000", "-1", "+", " 80", "80 "] {
        let e = Config::from_values(
            Some(String::from("r")),
            Some(String::from("p")),
            None,
            None,
            Some(String::from(bad)),
        )
        .err()
        .unwrap();
        assert_eq!(e, ConfigError::InvalidServerPort, "{}", bad);
        assert!(bad.parse::<u16>().is_err(), "{}", bad);
    }
}

#[test]
fn user_login_faults_on_unparsable_hash() {
    let stored = User {
        id: 9,
        username: String::from("carol"),
        password_hash: String::from("not-a-bcrypt-hash"),
        json_data: String::from("{}"),
        created_at: String::from("2024-01-01"),
    };
    let req = LoginRequest {
        username: String::from("carol"),
        password: String::from("whatever"),
    };
    let e = user_login(&req, Some(&stored), "s3cr3t").err().unwrap();
    assert_eq!(e, LoginError::ServerFault);
    assert_eq!(e.status_code(), 500);
}

#[test]
fn login_tokens_expire_after_twenty_four_hours() {
    let req = LoginRequest {
        username: String::from("root"),
        password: String::from("hunter2"),
    };
    let resp = admin_login_at(&req, &test_config(), NOW).unwrap();
    assert!(verify_token_at(resp.token.as_str(), "s3cr3t", NOW + 24 * 3600 - 1).is_ok());
    assert_eq!(
        verify_token_at(resp.token.as_str(), "s3cr3t", NOW + 24 * 3600).unwrap_err(),
        AuthError::Expired
    );
    let stored = User {
        id: 7,
        username: String::from("alice"),
        password_hash: bcrypt::hash("wonderland", 4).unwrap(),
        json_data: String::from("{}"),
        created_at: String::from("2024-01-01"),
    };
    let ureq = LoginRequest {
        username: String::from("alice"),
        password: String::from("wonderland"),
    };
    let uresp = user_login_at(&ureq, Some(&stored), "s3cr3t", NOW).unwrap();
    let claims = verify_token_at(uresp.token.as_str(), "s3cr3t", NOW + 10).unwrap();
    assert_eq!(claims.exp, NOW + 24 * 3600);
    assert_eq!(claims.user_id, Some(7));
}

#[test]
fn user_response_drops_sensitive_fields() {
    let stored = User {
        id: 3,
        username: String::from("bob"),
        password_hash: String::from("not-a-real-hash"),
        json_data: String::from("{\"stations\":[]}"),
        created_at: String::from("2024-02-02"),
    };
    let resp: UserResponse = stored.into();
    assert_eq!(resp.id, 3);
    assert_eq!(resp.username, "bob");
    assert_eq!(resp.created_at, "2024-02-02");
}
