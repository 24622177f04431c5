//! The token payload: a subject, an optional numeric user id, an admin flag
//! and an absolute expiry in seconds since the epoch.
use crate::ext;
use vstd::prelude::*;

verus! {

/// Mathematical image of a `Claims` value.
pub struct ClaimsView {
    pub sub: Seq<char>,
    pub user_id: Option<i64>,
    pub is_admin: bool,
    pub exp: u64,
}

/// A token payload. Admin claims carry no user id; user claims always do.
#[derive(Debug)]
pub struct Claims {
    pub sub: String,
    pub user_id: Option<i64>,
    pub is_admin: bool,
    pub exp: u64,
}

impl View for Claims {
    type V = ClaimsView;

    open spec fn view(&self) -> ClaimsView {
        ClaimsView {
            sub: self.sub@,
            user_id: self.user_id,
            is_admin: self.is_admin,
            exp: self.exp,
        }
    }
}

/// The shape invariant: the admin flag holds exactly when no user id is
/// present.
pub open spec fn wf_claims(c: ClaimsView) -> bool {
    c.is_admin <==> c.user_id is None
}

/// Expiry `hours` hours after `now`, saturating at the largest timestamp:
/// where the sum overflows, the claims never expire instead of the process
/// failing. Unreachable with the system's fixed 24-hour window.
pub open spec fn exp_at(now: u64, hours: u64) -> u64 {
    if now + hours * 3600 <= u64::MAX {
        (now + hours * 3600) as u64
    } else {
        u64::MAX
    }
}

fn expiry(now: u64, hours: u64) -> (r: u64)
    ensures
        r == exp_at(now, hours),
{
    if hours > u64::MAX / 3600 {
        proof {
            assert(hours * 3600 > u64::MAX) by (nonlinear_arith)
                requires
                    hours > u64::MAX / 3600,
            ;
        }
        u64::MAX
    } else {
        proof {
            assert(hours * 3600 <= u64::MAX) by (nonlinear_arith)
                requires
                    hours <= u64::MAX / 3600,
            ;
        }
        let secs = hours * 3600;
        if now > u64::MAX - secs {
            u64::MAX
        } else {
            now + secs
        }
    }
}

/// The current time as a timestamp, with readings before the epoch clamped
/// to zero.
pub fn now_or_zero() -> (r: u64) {
    let t = ext::current_timestamp_secs();
    if t < 0 {
        0
    } else {
        t as u64
    }
}

impl Claims {
    /// Admin claims expiring `exp_hours` after `now`: no user id, admin flag
    /// set.
    pub fn new_admin_at(username: String, exp_hours: u64, now: u64) -> (r: Claims)
        ensures
            r@.sub == username@,
            r@.user_id is None,
            r@.is_admin == true,
            r@.exp == exp_at(now, exp_hours),
            wf_claims(r@),
    {
        Claims { sub: username, user_id: None, is_admin: true, exp: expiry(now, exp_hours) }
    }

    /// User claims expiring `exp_hours` after `now`: the given user id, admin
    /// flag clear.
    pub fn new_user_at(username: String, user_id: i64, exp_hours: u64, now: u64) -> (r: Claims)
        ensures
            r@.sub == username@,
            r@.user_id == Some(user_id),
            r@.is_admin == false,
            r@.exp == exp_at(now, exp_hours),
            wf_claims(r@),
    {
        Claims { sub: username, user_id: Some(user_id), is_admin: false, exp: expiry(now, exp_hours) }
    }

    /// Admin claims expiring `exp_hours` from the current time, saturating
    /// as `exp_at` does.
    pub fn new_admin(username: String, exp_hours: u64) -> (r: Claims)
        ensures
            r@.sub == username@,
            r@.user_id is None,
            exists|now: u64| r@.exp == exp_at(now, exp_hours),
            r@.is_admin == true,
            wf_claims(r@),
    {
        Claims::new_admin_at(username, exp_hours, now_or_zero())
    }

    /// User claims expiring `exp_hours` from the current time, saturating
    /// as `exp_at` does.
    pub fn new_user(username: String, user_id: i64, exp_hours: u64) -> (r: Claims)
        ensures
            r@.sub == username@,
            r@.user_id == Some(user_id),
            exists|now: u64| r@.exp == exp_at(now, exp_hours),
            r@.is_admin == false,
            wf_claims(r@),
    {
        Claims::new_user_at(username, user_id, exp_hours, now_or_zero())
    }
}

} // verus!
