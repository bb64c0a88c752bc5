//! Verified core of a retained-mode scene-graph reconciler.
//!
//! A tree of nodes is described anew whenever its inputs change; the library
//! decides, by each child's key, which existing children are kept, which are
//! created and which are deleted or left to linger, and in what order the
//! children of an ordered parent end up.
use vstd::prelude::*;

pub mod child_key;
pub mod display;
pub mod duration;
pub mod child_deletion_policy;
pub mod scheduled_for_deletion;
pub mod child_map;
pub mod duplicate_checker;
pub mod ordering;
pub mod ordered_children;
pub mod unordered_children;
pub mod set_event;
pub mod has_changed;
pub mod memo;
pub mod transition;
pub mod slab;

verus! {

} // verus!
