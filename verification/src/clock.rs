//! The one place where the library reads the wall clock.

use vstd::prelude::*;

verus! {

/// Relies on chrono's `Utc::now`: the current Unix time in whole seconds.
/// Nothing can be promised about the value, so callers state what holds for
/// every timestamp.  Also relies on the system clock not being set before
/// the Unix epoch, on which chrono's `now` panics — an environment
/// condition, not an input this wrapper could exclude.
#[verifier::external_body]
pub(crate) fn now_unix_seconds() -> i64 {
    chrono::Utc::now().timestamp()
}

} // verus!
