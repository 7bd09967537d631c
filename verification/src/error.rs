//! The fixed set of domain error kinds, each carrying the context it was
//! raised with.  Formatting for display belongs to the presentation layer.

use vstd::prelude::*;
use crate::date::Date;

verus! {

/// An error of the ledger's domain rules.
#[derive(Clone, Copy, Debug, PartialEq, Eq, Structural)]
pub enum DomainError {
    /// A cycle start day outside 1-31 was configured.
    InvalidConfiguration { start_day: i32 },
    /// A reporting range whose end precedes its start.
    InvalidDateRange { start: Date, end: Date },
    /// A resource that does not exist (or is inactive).
    NotFound { resource_id: i64 },
    /// A resource owned by another user.
    Unauthorized { resource_id: i64, user_id: i64 },
}

/// Checks a configured cycle start day, as every cycle computation does:
/// only 1 through 31 are accepted.
pub fn check_start_day(start_day: i32) -> (r: Result<u8, DomainError>)
    ensures
        match r {
            Ok(d) => 1 <= start_day <= 31 && d == start_day,
            Err(e) => !(1 <= start_day <= 31) && e == (DomainError::InvalidConfiguration {
                start_day,
            }),
        },
{
    if 1 <= start_day && start_day <= 31 {
        Ok(start_day as u8)
    } else {
        Err(DomainError::InvalidConfiguration { start_day })
    }
}

} // verus!
