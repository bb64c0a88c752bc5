//! Why a node's components and children are being set, and whether they
//! need to be set again.
use vstd::prelude::*;

verus! {

/// The occasion on which a node is set.
#[derive(Debug, Clone, Copy, PartialEq, Eq, Hash, Structural)]
pub enum SetEvent {
    /// The node was just created.
    Created,
    /// The node existed and is described again.
    Updated,
    /// The node was lingering before deletion and is described again.
    Undeleted,
}

/// What becomes of the stored node when a node is described again.
#[derive(Debug, Clone, Copy, PartialEq, Eq, Structural)]
pub enum NodeChange {
    /// No node was stored: the new one is stored as created.
    Created,
    /// The stored node differs: the new one replaces it as changed.
    Changed,
    /// The stored node equals the new one: nothing is done.
    Unchanged,
}

/// A node is hot when it is created or undeleted, or when its context has
/// changed, or when it differs from the node stored before (or none was).
pub open spec fn is_hot_spec(event: SetEvent, context_changed: bool, equals_previous: Option<bool>) -> bool {
    match event {
        SetEvent::Created | SetEvent::Undeleted => true,
        SetEvent::Updated => context_changed || equals_previous != Some(true),
    }
}

/// A node is set again on each of the reasons for it: being created or
/// undeleted, a changed context, and a node that differs from the stored one
/// or has none stored. Two reasons together never cancel out; only an updated
/// node with an unchanged context and an equal stored node is left alone.
pub proof fn lemma_hot_on_any_reason(context_changed: bool, equals_previous: Option<bool>)
    ensures
        is_hot_spec(SetEvent::Created, context_changed, equals_previous),
        is_hot_spec(SetEvent::Undeleted, context_changed, equals_previous),
        context_changed ==> is_hot_spec(SetEvent::Updated, context_changed, equals_previous),
        equals_previous != Some(true) ==> is_hot_spec(SetEvent::Updated, context_changed, equals_previous),
        !is_hot_spec(SetEvent::Updated, false, Some(true)),
{
}

impl SetEvent {
    /// Whether what is derived from a node must be set again:
    /// `equals_previous` is `None` when no node was stored before, and
    /// otherwise tells whether the node equals the stored one.
    pub fn is_hot(self, context_changed: bool, equals_previous: Option<bool>) -> (r: bool)
        ensures
            r == is_hot_spec(self, context_changed, equals_previous),
            self is Created ==> r,
            self is Undeleted ==> r,
            self is Updated && context_changed ==> r,
            self is Updated && equals_previous != Some(true) ==> r,
            self is Updated && !context_changed && equals_previous == Some(true) ==> !r,
    {
        match self {
            SetEvent::Created | SetEvent::Undeleted => true,
            SetEvent::Updated => context_changed || match equals_previous {
                Some(equal) => !equal,
                None => true,
            },
        }
    }

    /// The event for a node that is described again: `Undeleted` when it
    /// was lingering before deletion, `Updated` otherwise.
    pub fn for_existing(was_scheduled_for_deletion: bool) -> (r: SetEvent)
        ensures
            was_scheduled_for_deletion ==> r == SetEvent::Undeleted,
            !was_scheduled_for_deletion ==> r == SetEvent::Updated,
    {
        if was_scheduled_for_deletion {
            SetEvent::Undeleted
        } else {
            SetEvent::Updated
        }
    }
}

impl NodeChange {
    /// What becomes of the stored node, given whether the new node equals
    /// it (`None` when none was stored).
    pub fn of(equals_previous: Option<bool>) -> (r: NodeChange)
        ensures
            equals_previous is None ==> r == NodeChange::Created,
            equals_previous == Some(false) ==> r == NodeChange::Changed,
            equals_previous == Some(true) ==> r == NodeChange::Unchanged,
    {
        match equals_previous {
            None => NodeChange::Created,
            Some(false) => NodeChange::Changed,
            Some(true) => NodeChange::Unchanged,
        }
    }
}

} // verus!
