//! The access extractors: a bearer credential in the `Authorization` header
//! yields an authenticated identity, layered with an administrator-only
//! check. All failures collapse to a status code and a fixed reason, so the
//! codec's specific failure never leaks to the caller.
use crate::claims::{Claims, ClaimsView};
use crate::codec::{verify_spec, verify_token_bytes};
use crate::copy_range;
use crate::payload::{match_lit, starts_with};
use vstd::prelude::*;

verus! {

/// Why a request was denied before its handler ran.
#[derive(Debug, Clone, Copy, PartialEq, Eq, Structural)]
pub enum AuthRejection {
    /// No `Authorization: Bearer <token>` header was supplied.
    MissingAuthHeader,
    /// A bearer token was supplied but did not verify.
    InvalidToken,
    /// A valid identity without administrator rights reached an
    /// administrator-only gate.
    AdminRequired,
    /// An administrator token reached an operation that needs a user
    /// identity.
    UserIdentityRequired,
}

impl AuthRejection {
    pub open spec fn status_spec(self) -> u16 {
        match self {
            AuthRejection::MissingAuthHeader => 401,
            AuthRejection::InvalidToken => 401,
            AuthRejection::AdminRequired => 403,
            AuthRejection::UserIdentityRequired => 403,
        }
    }

    pub open spec fn message_spec(self) -> Seq<char> {
        match self {
            AuthRejection::MissingAuthHeader => "Missing authorization header"@,
            AuthRejection::InvalidToken => "Invalid token"@,
            AuthRejection::AdminRequired => "Admin access required"@,
            AuthRejection::UserIdentityRequired => "Operation requires a user identity"@,
        }
    }

    /// The HTTP status this rejection answers with.
    pub fn status_code(&self) -> (r: u16)
        ensures
            r == self.status_spec(),
    {
        match self {
            AuthRejection::MissingAuthHeader => 401,
            AuthRejection::InvalidToken => 401,
            AuthRejection::AdminRequired => 403,
            AuthRejection::UserIdentityRequired => 403,
        }
    }

    /// The short human-readable reason.
    pub fn message(&self) -> (r: &'static str)
        ensures
            r@ == self.message_spec(),
    {
        match self {
            AuthRejection::MissingAuthHeader => "Missing authorization header",
            AuthRejection::InvalidToken => "Invalid token",
            AuthRejection::AdminRequired => "Admin access required",
            AuthRejection::UserIdentityRequired => "Operation requires a user identity",
        }
    }
}

/// The process-wide signing secret.
#[derive(Clone)]
pub struct JwtSecret(pub String);

/// An authenticated identity: the verified claims.
pub struct AuthUser(pub Claims);

/// An authenticated administrator: verified claims with the admin flag set.
pub struct AdminUser(pub Claims);

/// The scheme prefix of a bearer credential: `Bearer `.
pub open spec fn bearer_prefix() -> Seq<u8> {
    seq![66u8, 101u8, 97u8, 114u8, 101u8, 114u8, 32u8]
}

pub open spec fn opt_bytes(h: Option<&Vec<u8>>) -> Option<Seq<u8>> {
    match h {
        Some(v) => Some(v@),
        None => None,
    }
}

/// The authorization decision for any authenticated identity: no bearer
/// header is `MissingAuthHeader`; a bearer token that fails verification,
/// for whatever reason, is `InvalidToken`; otherwise the decoded claims.
pub open spec fn extract_auth(header: Option<Seq<u8>>, secret: Seq<char>, now: u64) -> Result<
    ClaimsView,
    AuthRejection,
> {
    match header {
        None => Err(AuthRejection::MissingAuthHeader),
        Some(h) => if !starts_with(h, bearer_prefix()) {
            Err(AuthRejection::MissingAuthHeader)
        } else {
            match verify_spec(h.skip(bearer_prefix().len() as int), secret, now) {
                Ok(cv) => Ok(cv),
                Err(_) => Err(AuthRejection::InvalidToken),
            }
        },
    }
}

/// The administrator-only decision: any authentication failure passes
/// through unchanged; a valid identity without the admin flag is
/// `AdminRequired`.
pub open spec fn extract_admin(header: Option<Seq<u8>>, secret: Seq<char>, now: u64) -> Result<
    ClaimsView,
    AuthRejection,
> {
    match extract_auth(header, secret, now) {
        Err(e) => Err(e),
        Ok(cv) => if cv.is_admin {
            Ok(cv)
        } else {
            Err(AuthRejection::AdminRequired)
        },
    }
}

fn bearer_vec() -> (r: Vec<u8>)
    ensures
        r@ == bearer_prefix(),
{
    let mut v: Vec<u8> = Vec::new();
    v.push(66);
    v.push(101);
    v.push(97);
    v.push(114);
    v.push(101);
    v.push(114);
    v.push(32);
    proof {
        assert(v@ =~= bearer_prefix());
    }
    v
}

impl AuthUser {
    /// Authenticates a request from its `Authorization` header value.
    pub fn from_header(header: Option<&Vec<u8>>, secret: &JwtSecret, now: u64) -> (r: Result<
        AuthUser,
        AuthRejection,
    >)
        ensures
            r matches Ok(u) ==> extract_auth(opt_bytes(header), secret.0@, now) == Ok::<
                ClaimsView,
                AuthRejection,
            >(u.0@),
            r matches Err(e) ==> extract_auth(opt_bytes(header), secret.0@, now) == Err::<
                ClaimsView,
                AuthRejection,
            >(e),
    {
        let h = match header {
            None => {
                return Err(AuthRejection::MissingAuthHeader);
            },
            Some(h) => h,
        };
        let bp = bearer_vec();
        proof {
            assert(h@.skip(0) =~= h@);
        }
        if !match_lit(h, 0, &bp) {
            return Err(AuthRejection::MissingAuthHeader);
        }
        let tb = copy_range(h, 7, h.len());
        proof {
            assert(tb@ =~= h@.skip(7));
        }
        match verify_token_bytes(&tb, secret.0.as_str(), now) {
            Ok(c) => Ok(AuthUser(c)),
            Err(_) => Err(AuthRejection::InvalidToken),
        }
    }

    /// The numeric user identity carried by these claims; administrator
    /// claims carry none and are refused.
    pub fn require_user_id(&self) -> (r: Result<i64, AuthRejection>)
        ensures
            r matches Ok(id) ==> self.0@.user_id == Some(id),
            r matches Err(e) ==> self.0@.user_id is None && e
                == AuthRejection::UserIdentityRequired,
    {
        match self.0.user_id {
            Some(id) => Ok(id),
            None => Err(AuthRejection::UserIdentityRequired),
        }
    }
}

impl AdminUser {
    /// Authenticates a request and then requires the admin flag.
    pub fn from_header(header: Option<&Vec<u8>>, secret: &JwtSecret, now: u64) -> (r: Result<
        AdminUser,
        AuthRejection,
    >)
        ensures
            r matches Ok(u) ==> extract_admin(opt_bytes(header), secret.0@, now) == Ok::<
                ClaimsView,
                AuthRejection,
            >(u.0@) && u.0@.is_admin,
            r matches Err(e) ==> extract_admin(opt_bytes(header), secret.0@, now) == Err::<
                ClaimsView,
                AuthRejection,
            >(e),
    {
        let user = match AuthUser::from_header(header, secret, now) {
            Ok(u) => u,
            Err(e) => {
                return Err(e);
            },
        };
        if !user.0.is_admin {
            return Err(AuthRejection::AdminRequired);
        }
        Ok(AdminUser(user.0))
    }
}

/// A well-formed bearer header for freshly signed claims authenticates as
/// exactly those claims before their expiry.
pub proof fn lemma_bearer_roundtrip(c: ClaimsView, secret: Seq<char>, now: u64)
    requires
        now < c.exp,
    ensures
        extract_auth(
            Some(bearer_prefix() + crate::codec::token_of(c, secret)),
            secret,
            now,
        ) == Ok::<ClaimsView, AuthRejection>(c),
{
    let h = bearer_prefix() + crate::codec::token_of(c, secret);
    crate::payload::lemma_take_concat(bearer_prefix(), crate::codec::token_of(c, secret));
    assert(starts_with(h, bearer_prefix()));
    assert(h.skip(bearer_prefix().len() as int) == crate::codec::token_of(c, secret));
    crate::codec::lemma_token_roundtrip(c, secret, now);
}

/// The administrator gate lets exactly the admin-flagged identities through:
/// a valid user token is refused with `AdminRequired`, a valid admin token
/// passes.
pub proof fn lemma_admin_gate(c: ClaimsView, secret: Seq<char>, now: u64)
    requires
        now < c.exp,
    ensures
        extract_admin(Some(bearer_prefix() + crate::codec::token_of(c, secret)), secret, now) == (
        if c.is_admin {
            Ok::<ClaimsView, AuthRejection>(c)
        } else {
            Err::<ClaimsView, AuthRejection>(AuthRejection::AdminRequired)
        }),
{
    lemma_bearer_roundtrip(c, secret, now);
}

/// A request without a credential is always refused as unauthorized.
pub proof fn lemma_no_credential_rejected(secret: Seq<char>, now: u64)
    ensures
        extract_auth(None, secret, now) == Err::<ClaimsView, AuthRejection>(
            AuthRejection::MissingAuthHeader,
        ),
        extract_admin(None, secret, now) == Err::<ClaimsView, AuthRejection>(
            AuthRejection::MissingAuthHeader,
        ),
{
}

} // verus!
