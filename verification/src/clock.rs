//! The wall clock.

use vstd::prelude::*;

verus! {

/// The current time in whole seconds since the Unix epoch, read from
/// `chrono::Utc::now`. Nothing is claimed about the value: two calls may
/// return anything.
#[verifier::external_body]
pub(crate) fn unix_now() -> u64 {
    chrono::Utc::now().timestamp() as u64
}

} // verus!
