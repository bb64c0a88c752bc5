//! Reconciles the children of a parent whose children are kept in order.
use vstd::prelude::*;
use crate::child_key::{ChildKey, ChildKeyView};
use crate::child_map::{ChildMap, OldChild, entries_of, indices_distinct, keys_distinct, lemma_entries_positions_distinct, positions_distinct, recorded_from};
use crate::duplicate_checker::DuplicateChecker;
use crate::ordering::{arrange, created_child, in_old_order, lemma_old_order_pairwise, swapped_pair, lemma_lingering_only_inserted, lemma_lingering_placed, lemma_nothing_lingers, lingering_count, old_position_absent, old_positions_distinct, order_changed, place, place_lingering, sits_before_next};

verus! {

/// The old positions of the kept and created children are apart from each
/// other and from those of the children not yet matched.
pub open spec fn positions_apart(
    indices: Seq<Option<usize>>,
    remaining: Map<ChildKeyView, (usize, u64)>,
    pending: Option<(usize, u64)>,
) -> bool {
    &&& old_positions_distinct(indices)
    &&& positions_distinct(remaining)
    &&& forall|k: ChildKeyView|
        #![trigger remaining[k]]
        remaining.contains_key(k) ==> old_position_absent(indices, remaining[k].0)
    &&& pending matches Some((p, _)) ==> {
        &&& old_position_absent(indices, p)
        &&& forall|k: ChildKeyView|
            #![trigger remaining[k]]
            remaining.contains_key(k) ==> remaining[k].0 != p
    }
}

/// Appending to the new order the old position of the pending child (when
/// it is kept) or no position (when a child is created) keeps the positions
/// apart, with nothing pending any more.
proof fn lemma_push_apart(
    indices: Seq<Option<usize>>,
    remaining: Map<ChildKeyView, (usize, u64)>,
    pending: Option<(usize, u64)>,
    kept: bool,
)
    requires
        positions_apart(indices, remaining, pending),
        kept ==> pending is Some,
    ensures
        positions_apart(
            indices.push(if kept { Some(pending.unwrap().0) } else { None }),
            remaining,
            None,
        ),
{
    let x: Option<usize> = if kept { Some(pending.unwrap().0) } else { None };
    let s = indices.push(x);
    assert forall|i: int, j: int|
        #![trigger s[i], s[j]]
        0 <= i < j < s.len() && s[i] is Some && s[j] is Some implies s[i].unwrap() != s[j].unwrap() by {
        assert(s[i] == indices[i]);
        if j < indices.len() {
            assert(s[j] == indices[j]);
        }
    }
    assert forall|k: ChildKeyView|
        #![trigger remaining[k]]
        remaining.contains_key(k) implies old_position_absent(s, remaining[k].0) by {
        assert(old_position_absent(indices, remaining[k].0));
        assert forall|i: int| #![trigger s[i]] 0 <= i < s.len() implies s[i] != Some(remaining[k].0) by {
            if i < indices.len() {
                assert(s[i] == indices[i]);
            }
        }
    }
}

/// The children of an ordered parent as they are described anew.
///
/// Existing children are matched by key. Each kept or created child is
/// appended to the new order together with its old position; when the
/// description is done, the children that were not matched are deleted, and
/// those that linger are placed among the others.
pub struct OrderedChildren {
    remaining: ChildMap,
    new_children: Vec<u64>,
    new_indices: Vec<Option<usize>>,
    duplicate_checker: DuplicateChecker,
    pending: Option<(usize, u64)>,
}

impl OrderedChildren {
    /// The existing children that no key has matched yet: for each key, the
    /// child's old position and handle.
    pub closed spec fn remaining(&self) -> Map<ChildKeyView, (usize, u64)> {
        self.remaining@
    }

    /// The children in their new order.
    pub closed spec fn new_children(&self) -> Seq<u64> {
        self.new_children@
    }

    /// The old position of each child in the new order; `None` for a created one.
    pub closed spec fn new_indices(&self) -> Seq<Option<usize>> {
        self.new_indices@
    }

    /// The keys used so far.
    pub closed spec fn seen(&self) -> Set<ChildKeyView> {
        self.duplicate_checker.seen()
    }

    /// The existing child that the last added key matched, while it waits
    /// to be kept or replaced: its old position and its handle.
    pub closed spec fn pending(&self) -> Option<(usize, u64)> {
        self.pending
    }

    /// The new order has an old position for each child, and the positions
    /// are apart.
    #[verifier::type_invariant]
    spec fn wf(&self) -> bool {
        &&& self.new_children().len() == self.new_indices().len()
        &&& positions_apart(self.new_indices(), self.remaining(), self.pending())
    }

    /// Starts from the children the parent has, in order; `None` stands for
    /// a child without a key, which is left alone.
    pub fn new(children: &Vec<Option<(ChildKey, u64)>>) -> (r: Self)
        ensures
            recorded_from(r.remaining(), children@),
            r.new_children() == Seq::<u64>::empty(),
            r.new_indices() == Seq::<Option<usize>>::empty(),
            r.seen() == Set::<ChildKeyView>::empty(),
            r.pending() is None,
    {
        let remaining = ChildMap::from_children(children);
        OrderedChildren {
            remaining,
            new_children: Vec::new(),
            new_indices: Vec::new(),
            duplicate_checker: DuplicateChecker::new(),
            pending: None,
        }
    }

    /// Moves the whole state out, leaving a description of no children.
    fn take_out(&mut self) -> (r: Self)
        ensures
            r == *old(self),
    {
        let mut r = OrderedChildren {
            remaining: ChildMap::new(),
            new_children: Vec::new(),
            new_indices: Vec::new(),
            duplicate_checker: DuplicateChecker::new(),
            pending: None,
        };
        std::mem::swap(&mut r, self);
        r
    }

    /// Looks up the existing child with `key` for a child that is described.
    /// Returns whether the key was used before among these children, and the
    /// existing child with the key, if there is one; that child then waits
    /// until [`Self::keep`] keeps it or [`Self::push_created`] replaces it.
    pub fn add_child(&mut self, key: ChildKey) -> (r: (bool, Option<u64>))
        ensures
            r.0 == old(self).seen().contains(key@),
            final(self).seen() == old(self).seen().insert(key@),
            final(self).new_children() == old(self).new_children(),
            final(self).new_indices() == old(self).new_indices(),
            final(self).remaining() == old(self).remaining().remove(key@),
            old(self).remaining().contains_key(key@) ==> {
                &&& r.1 == Some(old(self).remaining()[key@].1)
                &&& final(self).pending() == Some(old(self).remaining()[key@])
            },
            !old(self).remaining().contains_key(key@) ==> {
                &&& r.1 is None
                &&& final(self).pending() is None
            },
    {
        proof {
            use_type_invariant(&*self);
        }
        let OrderedChildren { mut remaining, new_children, new_indices, mut duplicate_checker, pending: _ } =
            self.take_out();
        let fresh = duplicate_checker.test(key);
        let found = remaining.remove(&key);
        proof {
            let before = old(self).remaining();
            let after = remaining@;
            let indices = new_indices@;
            if found is Some {
                let index = found.unwrap().0;
                assert forall|k: ChildKeyView|
                    #![trigger after[k]]
                    after.contains_key(k) implies after[k].0 != index by {
                    assert(after[k] == before[k]);
                    assert(before[key@] == found.unwrap());
                }
                assert forall|k: ChildKeyView|
                    #![trigger after[k]]
                    after.contains_key(k) implies old_position_absent(indices, after[k].0) by {
                    assert(after[k] == before[k]);
                }
                assert(old_position_absent(indices, before[key@].0));
            } else {
                assert(after =~= before);
            }
            assert forall|a: ChildKeyView, b: ChildKeyView|
                #![trigger after[a], after[b]]
                after.contains_key(a) && after.contains_key(b) && a != b implies after[a].0
                != after[b].0 by {
                assert(after[a] == before[a] && after[b] == before[b]);
            }
        }
        *self = OrderedChildren { remaining, new_children, new_indices, duplicate_checker, pending: found };
        match found {
            Some((_, entity)) => (!fresh, Some(entity)),
            None => (!fresh, None),
        }
    }

    /// Keeps the existing child that the last added key matched: it goes
    /// next in the new order, with its old position.
    pub fn keep(&mut self)
        requires
            old(self).pending() is Some,
        ensures
            final(self).new_children() == old(self).new_children().push(
                old(self).pending().unwrap().1,
            ),
            final(self).new_indices() == old(self).new_indices().push(
                Some(old(self).pending().unwrap().0),
            ),
            final(self).remaining() == old(self).remaining(),
            final(self).seen() == old(self).seen(),
            final(self).pending() is None,
    {
        proof {
            use_type_invariant(&*self);
            lemma_push_apart(old(self).new_indices(), old(self).remaining(), old(self).pending(), true);
        }
        let OrderedChildren { remaining, mut new_children, mut new_indices, duplicate_checker, pending } =
            self.take_out();
        if let Some((index, entity)) = pending {
            new_children.push(entity);
            new_indices.push(Some(index));
        }
        *self = OrderedChildren { remaining, new_children, new_indices, duplicate_checker, pending: None };
    }

    /// Adds a newly created child next in the new order; the existing child
    /// that the last added key matched, if any, is given up.
    pub fn push_created(&mut self, entity: u64)
        ensures
            final(self).new_children() == old(self).new_children().push(entity),
            final(self).new_indices() == old(self).new_indices().push(None),
            final(self).remaining() == old(self).remaining(),
            final(self).seen() == old(self).seen(),
            final(self).pending() is None,
    {
        proof {
            use_type_invariant(&*self);
            lemma_push_apart(old(self).new_indices(), old(self).remaining(), old(self).pending(), false);
        }
        let OrderedChildren { remaining, mut new_children, mut new_indices, duplicate_checker, pending: _ } =
            self.take_out();
        new_children.push(entity);
        new_indices.push(None);
        *self = OrderedChildren { remaining, new_children, new_indices, duplicate_checker, pending: None };
    }

    /// Removes the existing child with `key` at once, if there is one.
    /// Returns whether the key was used before among these children, and the
    /// child to remove.
    pub fn remove_child(&mut self, key: ChildKey) -> (r: (bool, Option<u64>))
        ensures
            r.0 == old(self).seen().contains(key@),
            final(self).seen() == old(self).seen().insert(key@),
            final(self).new_children() == old(self).new_children(),
            final(self).new_indices() == old(self).new_indices(),
            final(self).pending() is None,
            final(self).remaining() == old(self).remaining().remove(key@),
            old(self).remaining().contains_key(key@) ==> r.1 == Some(
                old(self).remaining()[key@].1,
            ),
            !old(self).remaining().contains_key(key@) ==> r.1 is None,
    {
        let (duplicate, found) = self.add_child(key);
        proof {
            use_type_invariant(&*self);
        }
        let OrderedChildren { remaining, new_children, new_indices, duplicate_checker, pending: _ } =
            self.take_out();
        *self = OrderedChildren { remaining, new_children, new_indices, duplicate_checker, pending: None };
        (duplicate, found)
    }

    /// Ends the description: the existing children that no key matched are
    /// to be deleted, in the order that [`ChildDeletions::deleted`] lists
    /// them.
    pub fn finish(self) -> (r: ChildDeletions)
        ensures
            entries_of(r.deleted_children(), self.remaining()),
            keys_distinct(r.deleted_children()),
            r.new_children() == self.new_children(),
            r.new_indices() == self.new_indices(),
    {
        proof {
            use_type_invariant(&self);
        }
        let deleted = self.remaining.entries();
        proof {
            lemma_entries_positions_distinct(deleted@, self.remaining());
            let s = deleted@;
            assert forall|m: int|
                #![trigger s[m]]
                0 <= m < s.len() implies old_position_absent(self.new_indices(), s[m].index) by {
                assert(self.remaining()[s[m].key@] == (s[m].index, s[m].entity));
            }
        }
        ChildDeletions {
            deleted,
            new_children: self.new_children,
            new_indices: self.new_indices,
        }
    }
}

/// The children of an ordered parent once the description is done, while
/// the unmatched ones are being deleted.
pub struct ChildDeletions {
    deleted: Vec<OldChild<u64>>,
    new_children: Vec<u64>,
    new_indices: Vec<Option<usize>>,
}

impl ChildDeletions {
    /// The existing children that no key matched, in the order in which they
    /// are deleted.
    pub closed spec fn deleted_children(&self) -> Seq<OldChild<u64>> {
        self.deleted@
    }

    /// The children in their new order.
    pub closed spec fn new_children(&self) -> Seq<u64> {
        self.new_children@
    }

    /// The old position of each child in the new order; `None` for a created one.
    pub closed spec fn new_indices(&self) -> Seq<Option<usize>> {
        self.new_indices@
    }

    /// The positions of the deleted children are apart from each other and
    /// from those in the new order.
    #[verifier::type_invariant]
    spec fn wf(&self) -> bool {
        &&& self.new_children().len() == self.new_indices().len()
        &&& old_positions_distinct(self.new_indices())
        &&& indices_distinct(self.deleted_children())
        &&& forall|m: int|
            #![trigger self.deleted_children()[m]]
            0 <= m < self.deleted_children().len() ==> old_position_absent(
                self.new_indices(),
                self.deleted_children()[m].index,
            )
    }

    /// The existing children that no key matched, in the order in which they
    /// are deleted.
    pub fn deleted(&self) -> (r: &Vec<OldChild<u64>>)
        ensures
            r@ == self.deleted_children(),
    {
        &self.deleted
    }

    /// Completes the new order once the unmatched children are deleted;
    /// `lingering[k]` tells whether the `k`-th of them lingers rather than
    /// disappearing at once.
    ///
    /// Returns `None` when the children are still in their old order: then
    /// nothing moves, and lingering children stay where they were. Otherwise
    /// returns the new order, with each lingering child placed by [`place`].
    pub fn complete(self, lingering: &Vec<bool>) -> (r: Option<Vec<u64>>)
        requires
            lingering@.len() == self.deleted_children().len(),
        ensures
            in_old_order(self.new_indices()) ==> r is None,
            created_child(self.new_indices()) || swapped_pair(self.new_indices()) ==> r is Some,
            !created_child(self.new_indices()) && !swapped_pair(self.new_indices()) ==> r is None,
            !in_old_order(self.new_indices()) ==> r is Some && r.unwrap()@ == arrange(
                self.new_children(),
                self.new_indices(),
                self.deleted_children(),
                lingering@,
            ).0,
            r is Some ==> r.unwrap()@.len() == self.new_children().len() + lingering_count(
                lingering@,
            ),
            r is Some ==> forall|k: int|
                #![trigger self.deleted_children()[k]]
                0 <= k < lingering@.len() && lingering@[k] ==> sits_before_next(
                    r.unwrap()@,
                    arrange(self.new_children(), self.new_indices(), self.deleted_children(), lingering@).1,
                    self.deleted_children()[k].index,
                    self.deleted_children()[k].entity,
                ),
            r is Some && (forall|k: int|
                #![trigger lingering@[k]]
                0 <= k < lingering@.len() ==> !lingering@[k]) ==> r.unwrap()@
                == self.new_children(),
    {
        proof {
            use_type_invariant(&self);
            lemma_old_order_pairwise(self.new_indices());
            lemma_lingering_placed(
                self.new_children(),
                self.new_indices(),
                self.deleted_children(),
                lingering@,
            );
            lemma_lingering_only_inserted(
                self.new_children(),
                self.new_indices(),
                self.deleted_children(),
                lingering@,
            );
            if forall|k: int| #![trigger lingering@[k]] 0 <= k < lingering@.len() ==> !lingering@[k] {
                lemma_nothing_lingers(
                    self.new_children(),
                    self.new_indices(),
                    self.deleted_children(),
                    lingering@,
                );
            }
        }
        let ghost initial_children = self.new_children();
        let ghost initial_indices = self.new_indices();
        let ghost deleted = self.deleted_children();
        if !order_changed(&self.new_indices) {
            return None;
        }
        let mut children = self.new_children;
        let mut indices = self.new_indices;
        let entries = self.deleted;
        let n = entries.len();
        let mut k: usize = 0;
        proof {
            assert(deleted.subrange(0, n as int) =~= deleted);
            assert(lingering@.subrange(0, n as int) =~= lingering@);
        }
        while k < n
            invariant
                n == entries@.len(),
                n == lingering@.len(),
                entries@ == deleted,
                0 <= k <= n,
                children@.len() == indices@.len(),
                old_positions_distinct(indices@),
                indices_distinct(deleted),
                forall|m: int|
                    #![trigger deleted[m]]
                    k <= m < n ==> old_position_absent(indices@, deleted[m].index),
                arrange(initial_children, initial_indices, deleted, lingering@) == arrange(
                    children@,
                    indices@,
                    deleted.subrange(k as int, n as int),
                    lingering@.subrange(k as int, n as int),
                ),
            decreases n - k,
        {
            let ghost rest = deleted.subrange(k as int, n as int);
            let ghost rest_lingering = lingering@.subrange(k as int, n as int);
            assert(rest.drop_first() =~= deleted.subrange(k + 1, n as int));
            assert(rest_lingering.drop_first() =~= lingering@.subrange(k + 1, n as int));
            let ghost before = indices@;
            if lingering[k] {
                let d = entries[k].index;
                place_lingering(&mut children, &mut indices, d, entries[k].entity);
                proof {
                    assert forall|m: int|
                        #![trigger deleted[m]]
                        k + 1 <= m < n implies old_position_absent(indices@, deleted[m].index) by {
                        assert(old_position_absent(before, deleted[m].index));
                        assert(deleted[m].index != d);
                        let s = indices@;
                        let p = choose|p: int|
                            0 <= p <= before.len() && s == before.insert(p, Some(d));
                        assert forall|i: int| #![trigger s[i]] 0 <= i < s.len() implies s[i]
                            != Some(deleted[m].index) by {
                            if i < p {
                                assert(s[i] == before[i]);
                            } else if i > p {
                                assert(s[i] == before[i - 1]);
                            }
                        }
                    }
                }
            }
            k = k + 1;
        }
        proof {
            assert(deleted.subrange(n as int, n as int).len() == 0);
        }
        Some(children)
    }
}

} // verus!
