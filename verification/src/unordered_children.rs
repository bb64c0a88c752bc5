//! Reconciles children whose order does not matter: those of an unordered
//! parent, and the roots of a tree.
use vstd::prelude::*;
use crate::child_key::{ChildKey, ChildKeyView};
use crate::child_map::{ChildMap, OldChild, entries_of, keys_distinct, recorded_from};
use crate::duplicate_checker::DuplicateChecker;

verus! {

/// The handles of the children, in order.
pub open spec fn entities_of(s: Seq<OldChild<u64>>) -> Seq<u64> {
    s.map_values(|c: OldChild<u64>| c.entity)
}

/// `s` lists the handles of the children in `m`, each once: exactly those.
pub open spec fn lists_handles(s: Seq<u64>, m: Map<ChildKeyView, (usize, u64)>) -> bool {
    exists|entries: Seq<OldChild<u64>>|
        #![trigger entities_of(entries)]
        keys_distinct(entries) && entries_of(entries, m) && s == entities_of(entries)
}

/// `s` holds, for each child in `m`, its handle, and nothing else: as many
/// handles as there are children.
pub open spec fn holds_each_handle(s: Seq<u64>, m: Map<ChildKeyView, (usize, u64)>) -> bool {
    &&& m.dom().finite()
    &&& s.len() == m.dom().len()
    &&& forall|k: ChildKeyView| #![trigger m[k]] m.contains_key(k) ==> s.contains(m[k].1)
    &&& forall|i: int| #![trigger s[i]] 0 <= i < s.len() ==> handle_of_child(m, s[i])
}

/// `h` is the handle of a child in `m`.
pub open spec fn handle_of_child(m: Map<ChildKeyView, (usize, u64)>, h: u64) -> bool {
    exists|k: ChildKeyView| #![trigger m[k]] m.contains_key(k) && m[k].1 == h
}

/// Entries that list a map's children once each are as many as the
/// children.
proof fn lemma_entries_count(entries: Seq<OldChild<u64>>, m: Map<ChildKeyView, (usize, u64)>)
    requires
        keys_distinct(entries),
        entries_of(entries, m),
    ensures
        m.dom().finite(),
        entries.len() == m.dom().len(),
{
    let keys = entries.map_values(|c: OldChild<u64>| c.key@);
    assert(keys.no_duplicates()) by {
        assert forall|i: int, j: int| 0 <= i < keys.len() && 0 <= j < keys.len() && i != j implies keys[i]
            != keys[j] by {
            if i < j {
                assert(entries[i].key@ != entries[j].key@);
            } else {
                assert(entries[j].key@ != entries[i].key@);
            }
        }
    }
    assert(keys.to_set() =~= m.dom()) by {
        assert forall|k: ChildKeyView| keys.to_set().contains(k) implies m.dom().contains(k) by {
            let i = choose|i: int| 0 <= i < keys.len() && keys[i] == k;
            assert(entries[i].key@ == k);
        }
        assert forall|k: ChildKeyView| m.dom().contains(k) implies keys.to_set().contains(k) by {
            let i = choose|i: int| #![trigger entries[i]] 0 <= i < entries.len() && entries[i].key@ == k;
            assert(keys[i] == k);
        }
    }
    keys.unique_seq_to_set();
    vstd::seq_lib::seq_to_set_is_finite(keys);
}

/// The handles of the children in a map, in the order that the map chooses.
fn handles_in(map: &ChildMap) -> (r: Vec<u64>)
    ensures
        lists_handles(r@, map@),
        holds_each_handle(r@, map@),
{
    let entries = map.entries();
    let mut r: Vec<u64> = Vec::new();
    let mut k: usize = 0;
    while k < entries.len()
        invariant
            0 <= k <= entries@.len(),
            r@.len() == k,
            forall|j: int| #![trigger r@[j]] 0 <= j < k ==> r@[j] == entries@[j].entity,
        decreases entries@.len() - k,
    {
        r.push(entries[k].entity);
        k = k + 1;
    }
    proof {
        let m = map@;
        let e = entries@;
        lemma_entries_count(e, m);
        assert(r@ =~= entities_of(e));
        assert forall|key: ChildKeyView| #![trigger m[key]] m.contains_key(key) implies r@.contains(m[key].1) by {
            let i = choose|i: int| #![trigger e[i]] 0 <= i < e.len() && e[i].key@ == key;
            assert(r@[i] == e[i].entity);
            assert(m[key] == (e[i].index, e[i].entity));
            assert(r@[i] == m[key].1);
        }
        let s = r@;
        assert forall|i: int| #![trigger s[i]] 0 <= i < s.len() implies handle_of_child(m, s[i]) by {
            let key = e[i].key@;
            assert(m[key] == (e[i].index, e[i].entity));
            assert(s[i] == e[i].entity);
            assert(m.contains_key(key) && m[key].1 == s[i]);
        }
        assert(r@.len() == m.dom().len());
        assert(m.dom().finite());
        assert(holds_each_handle(r@, m));
    }
    r
}

/// The children of an unordered parent as they are described anew. Existing
/// children are matched by key; those left unmatched are deleted at the end.
pub struct UnorderedChildren {
    remaining: ChildMap,
    duplicate_checker: DuplicateChecker,
}

impl UnorderedChildren {
    /// The existing children that no key has matched yet: for each key, the
    /// child's old position and handle.
    pub closed spec fn remaining(&self) -> Map<ChildKeyView, (usize, u64)> {
        self.remaining@
    }

    /// The keys used so far.
    pub closed spec fn seen(&self) -> Set<ChildKeyView> {
        self.duplicate_checker.seen()
    }

    /// Starts from the children the parent has; `None` stands for a child
    /// without a key, which is left alone.
    pub fn new(children: &Vec<Option<(ChildKey, u64)>>) -> (r: Self)
        ensures
            recorded_from(r.remaining(), children@),
            r.seen() == Set::<ChildKeyView>::empty(),
    {
        UnorderedChildren {
            remaining: ChildMap::from_children(children),
            duplicate_checker: DuplicateChecker::new(),
        }
    }

    /// Takes the existing child with `key` for a child that is described.
    /// Returns whether the key was used before among these children, and the
    /// existing child with the key, if there is one, to update or replace.
    pub fn add_child(&mut self, key: ChildKey) -> (r: (bool, Option<u64>))
        ensures
            r.0 == old(self).seen().contains(key@),
            final(self).seen() == old(self).seen().insert(key@),
            final(self).remaining() == old(self).remaining().remove(key@),
            old(self).remaining().contains_key(key@) ==> r.1 == Some(
                old(self).remaining()[key@].1,
            ),
            !old(self).remaining().contains_key(key@) ==> r.1 is None,
    {
        let fresh = self.duplicate_checker.test(key);
        match self.remaining.remove(&key) {
            Some((_, entity)) => (!fresh, Some(entity)),
            None => (!fresh, None),
        }
    }

    /// Takes the existing child with `key`, to remove it at once. Returns
    /// whether the key was used before among these children, and the child
    /// to remove, if there is one.
    pub fn remove_child(&mut self, key: ChildKey) -> (r: (bool, Option<u64>))
        ensures
            r.0 == old(self).seen().contains(key@),
            final(self).seen() == old(self).seen().insert(key@),
            final(self).remaining() == old(self).remaining().remove(key@),
            old(self).remaining().contains_key(key@) ==> r.1 == Some(
                old(self).remaining()[key@].1,
            ),
            !old(self).remaining().contains_key(key@) ==> r.1 is None,
    {
        self.add_child(key)
    }

    /// The existing children that no key matched: they are to be deleted.
    pub fn finish(self) -> (r: Vec<u64>)
        ensures
            lists_handles(r@, self.remaining()),
            holds_each_handle(r@, self.remaining()),
    {
        handles_in(&self.remaining)
    }
}

/// The roots of a tree as they are described anew. Existing roots are
/// matched by key; those left unmatched are deleted at the end.
pub struct RootChildren {
    remaining: ChildMap,
}

impl RootChildren {
    /// The existing roots that no key has matched yet: for each key, the
    /// root's position among those given and its handle.
    pub closed spec fn remaining(&self) -> Map<ChildKeyView, (usize, u64)> {
        self.remaining@
    }

    /// Starts from the existing roots with their keys.
    pub fn new(roots: &Vec<(ChildKey, u64)>) -> (r: Self)
        ensures
            recorded_from(r.remaining(), roots@.map_values(|p: (ChildKey, u64)| Some(p))),
    {
        let mut children: Vec<Option<(ChildKey, u64)>> = Vec::new();
        let mut k: usize = 0;
        while k < roots.len()
            invariant
                0 <= k <= roots@.len(),
                children@ == roots@.take(k as int).map_values(|p: (ChildKey, u64)| Some(p)),
            decreases roots@.len() - k,
        {
            children.push(Some(roots[k]));
            proof {
                assert(roots@.take(k + 1).map_values(|p: (ChildKey, u64)| Some(p)) =~= roots@.take(
                    k as int,
                ).map_values(|p: (ChildKey, u64)| Some(p)).push(Some(roots@[k as int])));
            }
            k = k + 1;
        }
        proof {
            assert(roots@.take(roots@.len() as int) =~= roots@);
        }
        RootChildren { remaining: ChildMap::from_children(&children) }
    }

    /// Takes the existing root with `key` for a root that is described, if
    /// there is one, to update or replace.
    pub fn add_child(&mut self, key: ChildKey) -> (r: Option<u64>)
        ensures
            final(self).remaining() == old(self).remaining().remove(key@),
            old(self).remaining().contains_key(key@) ==> r == Some(old(self).remaining()[key@].1),
            !old(self).remaining().contains_key(key@) ==> r is None,
    {
        match self.remaining.remove(&key) {
            Some((_, entity)) => Some(entity),
            None => None,
        }
    }

    /// Takes the existing root with `key`, to remove it at once, if there is
    /// one.
    pub fn remove_child(&mut self, key: ChildKey) -> (r: Option<u64>)
        ensures
            final(self).remaining() == old(self).remaining().remove(key@),
            old(self).remaining().contains_key(key@) ==> r == Some(old(self).remaining()[key@].1),
            !old(self).remaining().contains_key(key@) ==> r is None,
    {
        self.add_child(key)
    }

    /// The existing roots that no key matched: they are to be deleted.
    pub fn finish(self) -> (r: Vec<u64>)
        ensures
            lists_handles(r@, self.remaining()),
            holds_each_handle(r@, self.remaining()),
    {
        handles_in(&self.remaining)
    }
}

} // verus!
