//! When a value made of parts has changed since it was last looked at.
use vstd::prelude::*;

verus! {

/// Some part has changed.
pub open spec fn some_changed(parts: Seq<bool>) -> bool {
    exists|i: int| #![trigger parts[i]] 0 <= i < parts.len() && parts[i]
}

/// A value made of parts (a tuple of system parameters, a struct of them)
/// has changed exactly when one of its parts has; `parts` tells, for each
/// part, whether it changed.
pub fn any_changed(parts: &[bool]) -> (r: bool)
    ensures
        r == some_changed(parts@),
{
    let mut i: usize = 0;
    while i < parts.len()
        invariant
            0 <= i <= parts@.len(),
            forall|k: int| #![trigger parts@[k]] 0 <= k < i ==> !parts@[k],
        decreases parts@.len() - i,
    {
        if parts[i] {
            return true;
        }
        i = i + 1;
    }
    false
}

} // verus!
