//! Timers that count down by the time that passed each frame.
use vstd::prelude::*;
use std::time::Duration;
use crate::child_deletion_policy::DeletionPolicy;
use crate::duration::{duration_checked_sub, duration_nanos};

verus! {

/// Counts a timer down by `delta`. The timer runs out when `delta` is longer
/// than what was left; then it is left as it was and `true` is returned.
pub fn advance_countdown(remaining: &mut Duration, delta: Duration) -> (expired: bool)
    ensures
        expired == (duration_nanos(*old(remaining)) < duration_nanos(delta)),
        !expired ==> duration_nanos(*final(remaining)) == duration_nanos(*old(remaining))
            - duration_nanos(delta),
        expired ==> *final(remaining) == *old(remaining),
{
    match duration_checked_sub(*remaining, delta) {
        Some(new_remaining) => {
            *remaining = new_remaining;
            false
        },
        None => true,
    }
}

/// Marks a child that is being deleted: it is removed for good when the time
/// that is left runs out.
#[derive(Debug, PartialEq, Eq, Clone, Copy, PartialOrd, Ord, Hash, Default)]
pub struct ScheduledForDeletion {
    pub remaining: Duration,
}

impl ScheduledForDeletion {
    /// What a child that is deleted under `policy` is marked with: nothing,
    /// when it disappears at once; a timer of the time it lingers otherwise.
    pub fn for_policy(policy: DeletionPolicy) -> (r: Option<ScheduledForDeletion>)
        ensures
            policy is DeleteImmediately ==> r is None,
            policy matches DeletionPolicy::Linger(d) ==> r == Some(ScheduledForDeletion { remaining: d }),
    {
        match policy {
            DeletionPolicy::DeleteImmediately => None,
            DeletionPolicy::Linger(d) => Some(ScheduledForDeletion { remaining: d }),
        }
    }

    /// Lets `delta` pass; returns `true` when the child is due for removal.
    pub fn tick(&mut self, delta: Duration) -> (due: bool)
        ensures
            due == (duration_nanos(old(self).remaining) < duration_nanos(delta)),
            !due ==> duration_nanos(final(self).remaining) == duration_nanos(old(self).remaining)
                - duration_nanos(delta),
            due ==> *final(self) == *old(self),
    {
        advance_countdown(&mut self.remaining, delta)
    }
}

} // verus!
