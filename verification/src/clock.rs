//! Time: moments and lengths of time as whole nanoseconds.

use crate::binary64;
use crate::binary64::Binary64;
use vstd::prelude::*;

verus! {

/// The nanoseconds in a second.
pub const SECOND: u128 = 1_000_000_000;

/// Whether the seconds of a moment or a length of time fit 64 bits.
pub open spec fn in_range(nanos: u128) -> bool {
    nanos / 1_000_000_000 <= u64::MAX
}

/// The time from `earlier` to `later`; none where they are the other way
/// round.
pub open spec fn elapsed(later: u128, earlier: u128) -> u128 {
    if later >= earlier {
        (later - earlier) as u128
    } else {
        0
    }
}

/// Whether `now` is before a moment that may be set.
pub open spec fn ahead(until: Option<u128>, now: u128) -> bool {
    match until {
        Some(t) => now < t,
        None => false,
    }
}

/// The time from `earlier` to `later`.
pub fn since(later: u128, earlier: u128) -> (nanos: u128)
    ensures
        nanos == elapsed(later, earlier),
        in_range(later) ==> in_range(nanos),
{
    if later >= earlier {
        later - earlier
    } else {
        0
    }
}

/// The seconds from `earlier` to `later`.
pub fn seconds_since(later: u128, earlier: u128) -> (seconds: Binary64)
    requires
        in_range(later),
    ensures
        seconds == binary64::seconds(elapsed(later, earlier) as int),
{
    Binary64::from_nanos(since(later, earlier))
}

/// Whether `now` is before a moment that may be set.
pub fn is_ahead(until: Option<u128>, now: u128) -> (yes: bool)
    ensures
        yes == ahead(until, now),
{
    match until {
        Some(t) => now < t,
        None => false,
    }
}

} // verus!
