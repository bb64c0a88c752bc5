//! Notices when one key is used twice among the children of a parent.
use vstd::prelude::*;
use bevy::utils::HashSet;
use crate::child_key::{ChildKey, ChildKeyView};

verus! {

/// The keys used so far among the children of one parent.
#[verifier::external_body]
pub struct DuplicateChecker {
    set: HashSet<ChildKey>,
}

/// The keys that a [`DuplicateChecker`] holds.
pub uninterp spec fn checked_keys(c: DuplicateChecker) -> Set<ChildKeyView>;

/// `HashSet::default`: a set without keys.
#[verifier::external_body]
fn checker_new() -> (r: DuplicateChecker)
    ensures
        checked_keys(r) == Set::<ChildKeyView>::empty(),
{
    DuplicateChecker { set: HashSet::default() }
}

/// `HashSet::insert`: adds the key; returns whether it was not there yet.
/// (Keys are found again by their value: `ChildKey`'s `==` compares values
/// and its derived hash hashes them.)
#[verifier::external_body]
fn checker_insert(c: &mut DuplicateChecker, key: ChildKey) -> (r: bool)
    ensures
        r == !checked_keys(*old(c)).contains(key@),
        checked_keys(*final(c)) == checked_keys(*old(c)).insert(key@),
{
    c.set.insert(key)
}

impl DuplicateChecker {
    /// The keys used so far.
    pub open spec fn seen(&self) -> Set<ChildKeyView> {
        checked_keys(*self)
    }

    /// A checker that has seen no key.
    pub fn new() -> (r: Self)
        ensures
            r.seen() == Set::<ChildKeyView>::empty(),
    {
        checker_new()
    }

    /// Notes the use of `key`; returns `false` when it was used before.
    pub fn test(&mut self, key: ChildKey) -> (fresh: bool)
        ensures
            fresh == !old(self).seen().contains(key@),
            final(self).seen() == old(self).seen().insert(key@),
    {
        checker_insert(self, key)
    }
}

} // verus!
