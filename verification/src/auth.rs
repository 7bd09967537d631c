//! The authenticated user as the request layer sees it, and the claims this
//! application puts into its session tokens.  Signing and verifying tokens
//! is the web layer's concern.

use vstd::prelude::*;

verus! {

/// Seconds a session token stays valid: one day.
pub const TOKEN_LIFETIME_SECONDS: i64 = 86_400;

/// The user a request was authenticated as.
#[derive(Debug, Clone)]
pub struct CurrentUser {
    pub id: i64,
    pub email: String,
    pub username: String,
    pub is_verified: bool,
}

/// An authenticated user where none is required: pages that render for
/// guests too.
pub struct OptionalCurrentUser(pub Option<CurrentUser>);

/// The claims carried by a session token.
#[derive(Debug)]
pub struct Claims {
    /// The subject: the user's id.
    pub sub: i64,
    pub email: String,
    /// Expiry, as seconds since the epoch.
    pub exp: i64,
    /// Issue time, as seconds since the epoch.
    pub iat: i64,
}

impl Claims {
    /// The claims issued to a user at time `now`: they expire exactly one
    /// day later.
    pub fn issue(user_id: i64, email: String, now: i64) -> (c: Claims)
        requires
            now + TOKEN_LIFETIME_SECONDS <= i64::MAX,
        ensures
            c.sub == user_id,
            c.email == email,
            c.iat == now,
            c.exp == now + TOKEN_LIFETIME_SECONDS,
    {
        Claims { sub: user_id, email, exp: now + TOKEN_LIFETIME_SECONDS, iat: now }
    }
}

} // verus!
