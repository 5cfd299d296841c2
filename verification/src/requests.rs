//! The bodies and queries the API's endpoints take.

use vstd::prelude::*;

verus! {

/// Ask for a login link.
pub struct MagicLinkRequest {
    pub email: String,
}

/// Redeem a login link.
pub struct ConsumeTokenRequest {
    pub token: String,
}

/// Ask for a single-sign-on code for another site.
pub struct SsoCodeRequest {
    pub origin: String,
}

/// Redeem a single-sign-on code.
pub struct ConsumeSsoRequest {
    pub code: String,
}

/// Join the Goud waitlist.
pub struct WaitlistRequest {
    pub email: String,
}

/// Which results to list: one game only, and from a day on.
pub struct ListQuery {
    pub game: Option<String>,
    pub since_day: Option<i64>,
}

} // verus!
