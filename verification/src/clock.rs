use vstd::prelude::*;

verus! {

/// Relies on `chrono::Utc::now`: the wall clock, as seconds since the
/// epoch.  Nothing can be promised of the value; every caller states what
/// holds of each possible outcome.  On a host whose clock is set before
/// the epoch `Utc::now` itself panics; nothing here can guard against
/// that without catching panics, which this crate does not do.
#[verifier::external_body]
pub(crate) fn now_ts() -> i64 {
    chrono::Utc::now().timestamp()
}

} // verus!
