//! A pool of containers that are emptied when given back and handed out
//! again, so that their storage is reused.
use vstd::prelude::*;

verus! {

/// A container that can be emptied.
pub trait Clear: Sized {
    /// The container holds nothing.
    spec fn is_clear(&self) -> bool;

    /// `self` is what emptying `before` leaves. For a `Vec` this says only
    /// that it is empty: which buffer it keeps is not part of its view.
    spec fn cleared_from(&self, before: Self) -> bool;

    /// Empties the container.
    fn clear(&mut self)
        ensures
            final(self).is_clear(),
            final(self).cleared_from(*old(self)),
    ;
}

impl<T> Clear for Vec<T> {
    open spec fn is_clear(&self) -> bool {
        self@.len() == 0
    }

    open spec fn cleared_from(&self, before: Self) -> bool {
        self@.len() == 0
    }

    fn clear(&mut self) {
        self.clear();
    }
}

/// A pool of emptied containers.
pub struct Slab<T: Default + Clear> {
    elements: Vec<T>,
}

impl<T: Default + Clear> Slab<T> {
    /// The containers in the pool, the one handed out next last.
    pub closed spec fn elements(&self) -> Seq<T> {
        self.elements@
    }

    /// Every container in the pool is empty.
    #[verifier::type_invariant]
    spec fn wf(&self) -> bool {
        forall|i: int| #![trigger self.elements()[i]] 0 <= i < self.elements().len() ==> self.elements()[i].is_clear()
    }

    /// An empty pool.
    pub fn new() -> (r: Self)
        ensures
            r.elements() == Seq::<T>::empty(),
    {
        Slab { elements: Vec::new() }
    }

    /// Hands out the container given back last, or a new default one when
    /// the pool is empty.
    pub fn claim(&mut self) -> (r: T)
        ensures
            old(self).elements().len() > 0 ==> {
                &&& r == old(self).elements().last()
                &&& r.is_clear()
                &&& final(self).elements() == old(self).elements().drop_last()
            },
            old(self).elements().len() == 0 ==> {
                &&& call_ensures(T::default, (), r)
                &&& final(self).elements() == old(self).elements()
            },
    {
        proof {
            use_type_invariant(&*self);
        }
        let mut elements: Vec<T> = Vec::new();
        std::mem::swap(&mut elements, &mut self.elements);
        let r = match elements.pop() {
            Some(x) => x,
            None => T::default(),
        };
        self.elements = elements;
        r
    }

    /// Takes back a container: it is emptied and kept for the next claim,
    /// which hands it out again.
    pub fn reclaim(&mut self, element: T)
        ensures
            final(self).elements().len() == old(self).elements().len() + 1,
            final(self).elements().drop_last() == old(self).elements(),
            final(self).elements().last().is_clear(),
            final(self).elements().last().cleared_from(element),
    {
        proof {
            use_type_invariant(&*self);
        }
        let mut element = element;
        element.clear();
        let mut elements: Vec<T> = Vec::new();
        std::mem::swap(&mut elements, &mut self.elements);
        elements.push(element);
        proof {
            assert(elements@.drop_last() =~= old(self).elements@);
            assert forall|i: int| #![trigger elements@[i]] 0 <= i < elements@.len()
                implies elements@[i].is_clear() by {
                if i < old(self).elements().len() {
                    assert(elements@[i] == old(self).elements()[i]);
                }
            }
        }
        self.elements = elements;
    }
}

} // verus!
