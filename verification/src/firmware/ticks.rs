//! Time on a node, counted in ticks of its clock since it started.
use vstd::prelude::*;

verus! {

/// The ticks in a millisecond.
pub const TICKS_PER_MS: u64 = 1_000;

/// The ticks in a second.
pub const TICKS_PER_S: u64 = 1_000_000;

/// How many ticks a number of milliseconds takes.
///
/// Calls `embassy_time::Duration::from_millis` and `as_ticks`. The clock that
/// this crate is built with has one million ticks a second, so a millisecond is
/// a thousand of them and nothing is rounded. The multiplication must fit.
#[verifier::external_body]
pub(crate) fn millis(ms: u64) -> (r: u64)
    requires
        ms * TICKS_PER_MS <= u64::MAX,
    ensures
        r == ms * TICKS_PER_MS,
{
    embassy_time::Duration::from_millis(ms).as_ticks()
}

/// How many ticks a number of seconds takes.
///
/// Calls `embassy_time::Duration::from_secs` and `as_ticks`. The clock that this
/// crate is built with has one million ticks a second. The multiplication must
/// fit.
#[verifier::external_body]
pub(crate) fn secs(s: u64) -> (r: u64)
    requires
        s * TICKS_PER_S <= u64::MAX,
    ensures
        r == s * TICKS_PER_S,
{
    embassy_time::Duration::from_secs(s).as_ticks()
}

} // verus!
