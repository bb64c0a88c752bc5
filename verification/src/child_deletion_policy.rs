//! What happens to a child when it is no longer described.
use vstd::prelude::*;
use std::time::Duration;
use crate::duration::{duration_max, duration_nanos};

verus! {

/// Whether a removed child disappears at once or stays for a while.
#[derive(Debug, Clone, Copy, PartialEq, Eq)]
pub enum DeletionPolicy {
    DeleteImmediately,
    Linger(Duration),
}

/// How long a child lingers: at least as long as its deletion transition
/// lasts, and at least as long as the node itself asked for.
pub open spec fn linger_with_transition_nanos(base: DeletionPolicy, transition: Duration) -> nat {
    match base {
        DeletionPolicy::DeleteImmediately => duration_nanos(transition),
        DeletionPolicy::Linger(d) => if duration_nanos(transition) <= duration_nanos(d) {
            duration_nanos(d)
        } else {
            duration_nanos(transition)
        },
    }
}

impl DeletionPolicy {
    /// The policy of a child that plays a deletion transition taking
    /// `transition`: it lingers for the transition, or for the time its own
    /// policy asked for if that is longer.
    pub fn with_deletion_transition(self, transition: Duration) -> (r: DeletionPolicy)
        ensures
            r matches DeletionPolicy::Linger(d) && duration_nanos(d)
                == linger_with_transition_nanos(self, transition),
            self is DeleteImmediately ==> r == DeletionPolicy::Linger(transition),
            self matches DeletionPolicy::Linger(d) ==> {
                &&& duration_nanos(transition) <= duration_nanos(d) ==> r == DeletionPolicy::Linger(d)
                &&& duration_nanos(d) < duration_nanos(transition) ==> r == DeletionPolicy::Linger(
                    transition,
                )
            },
    {
        match self {
            DeletionPolicy::DeleteImmediately => DeletionPolicy::Linger(transition),
            DeletionPolicy::Linger(d) => DeletionPolicy::Linger(duration_max(transition, d)),
        }
    }
}

} // verus!
