//! The existing children of a parent that carry a key, looked up by key.
//!
//! A child is handed around by the bits of its entity handle.
use vstd::prelude::*;
use bevy::utils::HashMap;
use crate::child_key::{ChildKey, ChildKeyView};

verus! {

/// An existing child with a key: its position among all the children of its
/// parent, and its handle.
pub struct OldChild<E> {
    pub key: ChildKey,
    pub index: usize,
    pub entity: E,
}

/// Existing children by key: for each key, the old position and handle of
/// the child with that key.
#[verifier::external_body]
pub struct ChildMap {
    map: HashMap<ChildKey, (usize, u64)>,
}

/// What a [`ChildMap`] holds.
pub uninterp spec fn child_map_contents(m: ChildMap) -> Map<ChildKeyView, (usize, u64)>;

/// `HashMap::default`: a map without entries.
#[verifier::external_body]
fn child_map_new() -> (r: ChildMap)
    ensures
        child_map_contents(r).dom() == Set::<ChildKeyView>::empty(),
{
    ChildMap { map: HashMap::default() }
}

/// `HashMap::insert`: the key now maps to the value, whether it was there
/// before or not. (Keys are found again by their value: `ChildKey`'s `==`
/// compares values and its derived hash hashes them.)
#[verifier::external_body]
fn child_map_insert(m: &mut ChildMap, key: ChildKey, value: (usize, u64))
    ensures
        child_map_contents(*final(m)) == child_map_contents(*old(m)).insert(key@, value),
{
    m.map.insert(key, value);
}

/// `HashMap::remove`: takes out the value of the key, if the key is there.
#[verifier::external_body]
fn child_map_remove(m: &mut ChildMap, key: &ChildKey) -> (r: Option<(usize, u64)>)
    ensures
        child_map_contents(*old(m)).contains_key(key@) ==> r == Some(
            child_map_contents(*old(m))[key@],
        ),
        !child_map_contents(*old(m)).contains_key(key@) ==> r is None,
        child_map_contents(*final(m)) == child_map_contents(*old(m)).remove(key@),
{
    m.map.remove(key)
}

/// `HashMap::iter`: every entry once, in an order that the map chooses.
#[verifier::external_body]
fn child_map_entries(m: &ChildMap) -> (r: Vec<OldChild<u64>>)
    ensures
        forall|i: int|
            #![trigger r@[i]]
            0 <= i < r@.len() ==> {
                &&& child_map_contents(*m).contains_key(r@[i].key@)
                &&& child_map_contents(*m)[r@[i].key@] == (r@[i].index, r@[i].entity)
            },
        forall|i: int, j: int|
            #![trigger r@[i], r@[j]]
            0 <= i < j < r@.len() ==> r@[i].key@ != r@[j].key@,
        forall|k: ChildKeyView|
            #![trigger child_map_contents(*m).contains_key(k)]
            child_map_contents(*m).contains_key(k) ==> exists|i: int|
                #![trigger r@[i]]
                0 <= i < r@.len() && r@[i].key@ == k,
{
    m.map.iter().map(|(key, value)| OldChild { key: *key, index: value.0, entity: value.1 }).collect()
}

/// No two entries share a key.
pub open spec fn keys_distinct<E>(s: Seq<OldChild<E>>) -> bool {
    forall|i: int, j: int| #![trigger s[i], s[j]] 0 <= i < j < s.len() ==> s[i].key@ != s[j].key@
}

/// No two entries share a position.
pub open spec fn indices_distinct<E>(s: Seq<OldChild<E>>) -> bool {
    forall|i: int, j: int| #![trigger s[i], s[j]] 0 <= i < j < s.len() ==> s[i].index != s[j].index
}

/// No two keys map to the same old position.
pub open spec fn positions_distinct(m: Map<ChildKeyView, (usize, u64)>) -> bool {
    forall|a: ChildKeyView, b: ChildKeyView|
        #![trigger m[a], m[b]]
        m.contains_key(a) && m.contains_key(b) && a != b ==> m[a].0 != m[b].0
}

/// `m` records the keyed children among `children` (the children of a parent
/// in order, `None` for one without a key): each key maps to the last child
/// with that key, and every key among the children is there.
pub open spec fn recorded_from(m: Map<ChildKeyView, (usize, u64)>, children: Seq<Option<(ChildKey, u64)>>) -> bool {
    &&& forall|k: ChildKeyView|
        #![trigger m[k]]
        m.contains_key(k) ==> {
            &&& m[k].0 < children.len()
            &&& children[m[k].0 as int] is Some
            &&& children[m[k].0 as int].unwrap().0@ == k
            &&& children[m[k].0 as int].unwrap().1 == m[k].1
        }
    &&& forall|k: ChildKeyView, j: int|
        #![trigger m[k], children[j]]
        m.contains_key(k) && m[k].0 < j < children.len() && children[j] is Some
            ==> children[j].unwrap().0@ != k
    &&& forall|j: int|
        #![trigger children[j]]
        0 <= j < children.len() && children[j] is Some ==> m.contains_key(children[j].unwrap().0@)
}

/// Recording children from their positions gives each position to one key
/// at most.
pub proof fn lemma_recorded_positions_distinct(
    m: Map<ChildKeyView, (usize, u64)>,
    children: Seq<Option<(ChildKey, u64)>>,
)
    requires
        recorded_from(m, children),
    ensures
        positions_distinct(m),
{
    assert forall|a: ChildKeyView, b: ChildKeyView|
        #![trigger m[a], m[b]]
        m.contains_key(a) && m.contains_key(b) && a != b implies m[a].0 != m[b].0 by {
        if m[a].0 == m[b].0 {
            assert(children[m[a].0 as int].unwrap().0@ == a);
            assert(children[m[b].0 as int].unwrap().0@ == b);
        }
    }
}

/// The record of the children before position `j`, taking in the child at
/// `j`: a keyed child now stands for its key.
pub open spec fn record_step(
    m: Map<ChildKeyView, (usize, u64)>,
    children: Seq<Option<(ChildKey, u64)>>,
    j: usize,
) -> Map<ChildKeyView, (usize, u64)> {
    match children[j as int] {
        Some((key, entity)) => m.insert(key@, (j, entity)),
        None => m,
    }
}

/// Taking in the child at `j` records the children up to and including it.
pub proof fn lemma_record_step(
    m: Map<ChildKeyView, (usize, u64)>,
    children: Seq<Option<(ChildKey, u64)>>,
    j: usize,
)
    requires
        j < children.len(),
        recorded_from(m, children.take(j as int)),
    ensures
        recorded_from(record_step(m, children, j), children.take(j as int + 1)),
{
    let prefix = children.take(j as int);
    let next = children.take(j as int + 1);
    let after = record_step(m, children, j);
    assert(next == prefix.push(children[j as int]));
    // Whether `k` is the key that the child at `j` records.
    let fresh = |k: ChildKeyView| children[j as int] is Some && children[j as int].unwrap().0@ == k;
    assert forall|k: ChildKeyView|
        #![trigger after[k]]
        after.contains_key(k) implies {
        &&& after[k].0 < next.len()
        &&& next[after[k].0 as int] is Some
        &&& next[after[k].0 as int].unwrap().0@ == k
        &&& next[after[k].0 as int].unwrap().1 == after[k].1
    } by {
        if !fresh(k) {
            assert(after[k] == m[k]);
            assert(prefix[m[k].0 as int] == next[m[k].0 as int]);
        }
    }
    assert forall|k: ChildKeyView, jj: int|
        #![trigger after[k], next[jj]]
        after.contains_key(k) && after[k].0 < jj < next.len() && next[jj] is Some
            implies next[jj].unwrap().0@ != k by {
        if !fresh(k) {
            assert(after[k] == m[k]);
            if jj < j {
                assert(prefix[jj] == next[jj]);
            }
        }
    }
    assert forall|jj: int|
        #![trigger next[jj]]
        0 <= jj < next.len() && next[jj] is Some implies after.contains_key(next[jj].unwrap().0@) by {
        if jj < j {
            assert(prefix[jj] == next[jj]);
        }
    }
}

impl ChildMap {
    /// What the map holds.
    pub open spec fn view(&self) -> Map<ChildKeyView, (usize, u64)> {
        child_map_contents(*self)
    }

    /// A map without entries.
    pub fn new() -> (r: ChildMap)
        ensures
            r@ == Map::<ChildKeyView, (usize, u64)>::empty(),
    {
        let r = child_map_new();
        proof {
            assert(r@ =~= Map::<ChildKeyView, (usize, u64)>::empty());
        }
        r
    }

    /// Records the keyed children of a parent, given in order with `None`
    /// for a child without a key; of two children with one key, the later
    /// one is kept.
    pub fn from_children(children: &Vec<Option<(ChildKey, u64)>>) -> (r: ChildMap)
        ensures
            recorded_from(r@, children@),
            positions_distinct(r@),
    {
        let mut map = ChildMap::new();
        let mut j: usize = 0;
        while j < children.len()
            invariant
                0 <= j <= children@.len(),
                recorded_from(map@, children@.take(j as int)),
            decreases children@.len() - j,
        {
            proof {
                lemma_record_step(map@, children@, j);
            }
            match children[j] {
                Some(pair) => {
                    let (key, entity) = pair;
                    child_map_insert(&mut map, key, (j, entity));
                },
                None => {},
            }
            j = j + 1;
        }
        proof {
            assert(children@.take(children@.len() as int) =~= children@);
            lemma_recorded_positions_distinct(map@, children@);
        }
        map
    }

    /// Takes out the child with `key`, if there is one.
    pub fn remove(&mut self, key: &ChildKey) -> (r: Option<(usize, u64)>)
        ensures
            old(self)@.contains_key(key@) ==> r == Some(old(self)@[key@]),
            !old(self)@.contains_key(key@) ==> r is None,
            final(self)@ == old(self)@.remove(key@),
    {
        child_map_remove(self, key)
    }

    /// Every child once, with its key, in an order that the map chooses.
    pub fn entries(&self) -> (r: Vec<OldChild<u64>>)
        ensures
            keys_distinct(r@),
            entries_of(r@, self@),
    {
        child_map_entries(self)
    }
}

/// `s` lists the entries of `m`, each once.
pub open spec fn entries_of(s: Seq<OldChild<u64>>, m: Map<ChildKeyView, (usize, u64)>) -> bool {
    &&& forall|i: int|
        #![trigger s[i]]
        0 <= i < s.len() ==> m.contains_key(s[i].key@) && m[s[i].key@] == (s[i].index, s[i].entity)
    &&& forall|k: ChildKeyView|
        #![trigger m.contains_key(k)]
        m.contains_key(k) ==> exists|i: int| #![trigger s[i]] 0 <= i < s.len() && s[i].key@ == k
}

/// The entries of a map whose positions are distinct have distinct
/// positions.
pub proof fn lemma_entries_positions_distinct(s: Seq<OldChild<u64>>, m: Map<ChildKeyView, (usize, u64)>)
    requires
        keys_distinct(s),
        entries_of(s, m),
        positions_distinct(m),
    ensures
        indices_distinct(s),
{
    assert forall|i: int, j: int| #![trigger s[i], s[j]] 0 <= i < j < s.len() implies s[i].index
        != s[j].index by {
        assert(m[s[i].key@] == (s[i].index, s[i].entity));
        assert(m[s[j].key@] == (s[j].index, s[j].entity));
    }
}

} // verus!
