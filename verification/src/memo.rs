//! A value derived from other values, recalculated when they change and
//! marked as changed only when the result differs.
use vstd::prelude::*;
use vstd::std_specs::cmp::PartialEqSpec;

verus! {

/// The stored value of a memo.
pub struct MemoCell<T> {
    data: Option<T>,
}

impl<T: PartialEq> MemoCell<T> {
    /// The stored value, if one was calculated.
    pub closed spec fn value(&self) -> Option<T> {
        self.data
    }

    /// A memo that has calculated nothing yet.
    pub fn new() -> (r: Self)
        ensures
            r.value() is None,
    {
        MemoCell { data: None }
    }

    /// Whether the value must be calculated: the first time, and whenever
    /// the values it derives from have changed.
    pub fn needs_calculation(&self, argument_changed: bool) -> (r: bool)
        ensures
            r == (self.value() is None || argument_changed),
    {
        self.data.is_none() || argument_changed
    }

    /// Stores a freshly calculated value. Returns whether the memo changed:
    /// it did when there was no value yet, or when the new value differs from
    /// the stored one; a value equal to the stored one leaves the memo as it
    /// was.
    pub fn store(&mut self, new_value: T) -> (changed: bool)
        ensures
            changed ==> final(self).value() == Some(new_value),
            !changed ==> final(self).value() == old(self).value(),
            old(self).value() is None ==> changed,
            T::obeys_eq_spec() && old(self).value() is Some ==> changed == !new_value.eq_spec(
                &old(self).value().unwrap(),
            ),
    {
        let same = match &self.data {
            Some(previous) => new_value == *previous,
            None => false,
        };
        if same {
            false
        } else {
            self.data = Some(new_value);
            true
        }
    }

    /// The stored value.
    pub fn get(&self) -> (r: &T)
        requires
            self.value() is Some,
        ensures
            *r == self.value().unwrap(),
    {
        self.data.as_ref().unwrap()
    }
}

} // verus!
