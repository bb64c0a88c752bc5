//! Arithmetic on `std::time::Duration`, stated over its length in nanoseconds.
use vstd::prelude::*;
use std::time::Duration;

verus! {

/// The length of a duration in nanoseconds, as `Duration::as_nanos` reports it.
pub uninterp spec fn duration_nanos(d: Duration) -> nat;

/// The longest duration that a `Duration` can hold, in nanoseconds: `u64::MAX`
/// whole seconds and a fraction just short of one more.
pub open spec fn max_duration_nanos() -> nat {
    (u64::MAX as nat) * 1_000_000_000 + 999_999_999
}

/// `Duration::ZERO`: a duration of no length.
#[verifier::external_body]
pub(crate) fn duration_zero() -> (r: Duration)
    ensures
        duration_nanos(r) == 0,
{
    Duration::ZERO
}

/// `Duration::checked_sub`: `Some(a - b)` when `b` is not longer than `a`,
/// `None` when the difference would be negative.
#[verifier::external_body]
pub(crate) fn duration_checked_sub(a: Duration, b: Duration) -> (r: Option<Duration>)
    ensures
        r.is_some() == (duration_nanos(b) <= duration_nanos(a)),
        r.is_some() ==> duration_nanos(r.unwrap()) == duration_nanos(a) - duration_nanos(b),
{
    a.checked_sub(b)
}

/// `Duration::checked_add`: `Some(a + b)` when the sum fits in a `Duration`,
/// `None` when it does not.
#[verifier::external_body]
pub(crate) fn duration_checked_add(a: Duration, b: Duration) -> (r: Option<Duration>)
    ensures
        r.is_some() == (duration_nanos(a) + duration_nanos(b) <= max_duration_nanos()),
        r.is_some() ==> duration_nanos(r.unwrap()) == duration_nanos(a) + duration_nanos(b),
{
    a.checked_add(b)
}

/// `Ord::max` on durations: the longer of the two, and `b` when they are
/// equally long.
#[verifier::external_body]
pub(crate) fn duration_max(a: Duration, b: Duration) -> (r: Duration)
    ensures
        duration_nanos(a) <= duration_nanos(b) ==> r == b,
        duration_nanos(b) < duration_nanos(a) ==> r == a,
{
    a.max(b)
}

} // verus!
