//! The current time, taken from the system clock.

use vstd::prelude::*;

verus! {

/// Relies on `chrono::Utc::now` and `DateTime::timestamp`: the current
/// moment as whole seconds since the Unix epoch. Nothing is assumed of the
/// value; callers must cope with any result.
#[verifier::external_body]
pub(crate) fn utc_now_timestamp() -> i64 {
    chrono::Utc::now().timestamp()
}

} // verus!
