//! The time at which a commit is made.

use vstd::prelude::*;

verus! {

/// Reads the clock with `chrono::Local::now`, and gives the seconds since
/// the epoch (`timestamp`) and the seconds that local time is ahead of UTC
/// (`offset().local_minus_utc()`). Trusted, and nothing is claimed of what
/// comes back: it is different at every call.
#[verifier::external_body]
pub(crate) fn local_now() -> (now: (i64, i32)) {
    let now = chrono::Local::now();
    (now.timestamp(), now.offset().local_minus_utc())
}

} // verus!
