//! Where the children of an ordered parent end up, lingering ones included.
//!
//! Each child in the new order carries its old position among its parent's
//! children (`None` for a child that was just created).
use vstd::prelude::*;
use crate::child_map::{OldChild, indices_distinct};

verus! {

/// The children that were kept are in the order in which they stood before,
/// and none was created: the order of the children did not change.
pub open spec fn in_old_order(indices: Seq<Option<usize>>) -> bool {
    &&& forall|i: int| #![trigger indices[i]] 0 <= i < indices.len() ==> indices[i] is Some
    &&& forall|i: int, j: int|
        #![trigger indices[i], indices[j]]
        0 <= i < j < indices.len() ==> indices[i].unwrap() <= indices[j].unwrap()
}

/// No old position occurs twice.
pub open spec fn old_positions_distinct(indices: Seq<Option<usize>>) -> bool {
    forall|i: int, j: int|
        #![trigger indices[i], indices[j]]
        0 <= i < j < indices.len() && indices[i] is Some && indices[j] is Some
            ==> indices[i].unwrap() != indices[j].unwrap()
}

/// The old position `d` occurs nowhere.
pub open spec fn old_position_absent(indices: Seq<Option<usize>>, d: usize) -> bool {
    forall|i: int| #![trigger indices[i]] 0 <= i < indices.len() ==> indices[i] != Some(d)
}

/// Some child stood after old position `d`.
pub open spec fn has_later(indices: Seq<Option<usize>>, d: usize) -> bool {
    exists|j: int|
        #![trigger indices[j]]
        0 <= j < indices.len() && indices[j] is Some && indices[j].unwrap() > d
}

/// The child at position `p` is the one that stood closest after old
/// position `d`.
pub open spec fn next_after(indices: Seq<Option<usize>>, p: int, d: usize) -> bool {
    &&& 0 <= p < indices.len()
    &&& indices[p] is Some
    &&& indices[p].unwrap() > d
    &&& forall|j: int|
        #![trigger indices[j]]
        0 <= j < indices.len() && indices[j] is Some && indices[j].unwrap() > d
            ==> indices[p].unwrap() <= indices[j].unwrap()
}

/// Places a lingering child that stood at old position `d`: right before the
/// child that stood closest after it, or at the end when none did.
pub open spec fn place<E>(children: Seq<E>, indices: Seq<Option<usize>>, d: usize, e: E) -> (Seq<E>, Seq<Option<usize>>) {
    if has_later(indices, d) {
        let p = choose|p: int| next_after(indices, p, d);
        (children.insert(p, e), indices.insert(p, Some(d)))
    } else {
        (children.push(e), indices.push(Some(d)))
    }
}

/// Places, one after the other, those of the deleted children that linger.
pub open spec fn arrange<E>(
    children: Seq<E>,
    indices: Seq<Option<usize>>,
    deleted: Seq<OldChild<E>>,
    lingering: Seq<bool>,
) -> (Seq<E>, Seq<Option<usize>>)
    decreases deleted.len(),
{
    if deleted.len() == 0 || lingering.len() == 0 {
        (children, indices)
    } else {
        let (c, i) = if lingering[0] {
            place(children, indices, deleted[0].index, deleted[0].entity)
        } else {
            (children, indices)
        };
        arrange(c, i, deleted.drop_first(), lingering.drop_first())
    }
}

/// Some child in the new order was just created.
pub open spec fn created_child(indices: Seq<Option<usize>>) -> bool {
    exists|i: int| #![trigger indices[i]] 0 <= i < indices.len() && indices[i] is None
}

/// Two kept children stand in the new order the other way round from the
/// old one.
pub open spec fn swapped_pair(indices: Seq<Option<usize>>) -> bool {
    exists|i: int, j: int|
        #![trigger indices[i], indices[j]]
        0 <= i < j < indices.len() && indices[i] is Some && indices[j] is Some && indices[j].unwrap()
            < indices[i].unwrap()
}

/// The children are in their old order exactly when none was created and no
/// two kept children were swapped: every pair, not only neighbours or pairs
/// with the first child, keeps its old order.
pub proof fn lemma_old_order_pairwise(indices: Seq<Option<usize>>)
    ensures
        in_old_order(indices) <==> !created_child(indices) && !swapped_pair(indices),
{
    if !in_old_order(indices) && !created_child(indices) {
        let (i, j) = choose|i: int, j: int|
            #![trigger indices[i], indices[j]]
            0 <= i < j < indices.len() && !(indices[i].unwrap() <= indices[j].unwrap());
        assert(indices[i] is Some && indices[j] is Some);
    }
    if in_old_order(indices) && swapped_pair(indices) {
        let (i, j) = choose|i: int, j: int|
            #![trigger indices[i], indices[j]]
            0 <= i < j < indices.len() && indices[i] is Some && indices[j] is Some && indices[j].unwrap()
                < indices[i].unwrap();
        assert(indices[i].unwrap() <= indices[j].unwrap());
    }
}

/// Whether the children are no longer in their old order: some child was
/// created, or two kept children swapped places.
pub fn order_changed(indices: &Vec<Option<usize>>) -> (r: bool)
    ensures
        r == !in_old_order(indices@),
        r == (created_child(indices@) || swapped_pair(indices@)),
{
    let mut last: usize = 0;
    let mut i: usize = 0;
    while i < indices.len()
        invariant
            0 <= i <= indices@.len(),
            forall|k: int| #![trigger indices@[k]] 0 <= k < i ==> indices@[k] is Some,
            forall|a: int, b: int|
                #![trigger indices@[a], indices@[b]]
                0 <= a < b < i ==> indices@[a].unwrap() <= indices@[b].unwrap(),
            i > 0 ==> indices@[i - 1].unwrap() == last,
            i == 0 ==> last == 0,
        decreases indices@.len() - i,
    {
        match indices[i] {
            None => {
                proof {
                    assert(indices@[i as int] is None);
                    lemma_old_order_pairwise(indices@);
                }
                return true;
            },
            Some(old_index) => {
                if old_index < last {
                    proof {
                        let k = i - 1;
                        assert(indices@[k].unwrap() > indices@[i as int].unwrap());
                        assert(indices@[k] is Some && indices@[i as int] is Some);
                        lemma_old_order_pairwise(indices@);
                    }
                    return true;
                }
                last = old_index;
            },
        }
        i = i + 1;
    }
    proof {
        lemma_old_order_pairwise(indices@);
    }
    false
}

/// The position at which a lingering child from old position `d` goes:
/// `Some` position of the child that stood closest after it, `None` when no
/// child stood after it.
pub(crate) fn closest_to_next(indices: &Vec<Option<usize>>, d: usize) -> (r: Option<usize>)
    requires
        old_positions_distinct(indices@),
        old_position_absent(indices@, d),
    ensures
        r is Some <==> has_later(indices@, d),
        r is Some ==> next_after(indices@, r.unwrap() as int, d),
{
    let mut closest: Option<(usize, usize)> = None;
    let mut new_index: usize = 0;
    while new_index < indices.len()
        invariant
            0 <= new_index <= indices@.len(),
            old_positions_distinct(indices@),
            old_position_absent(indices@, d),
            closest is None ==> forall|j: int|
                #![trigger indices@[j]]
                0 <= j < new_index ==> !(indices@[j] is Some && indices@[j].unwrap() > d),
            closest matches Some((dist, p)) ==> {
                &&& p < new_index
                &&& indices@[p as int] is Some
                &&& indices@[p as int].unwrap() == d + dist
                &&& dist >= 1
                &&& forall|j: int|
                    #![trigger indices@[j]]
                    0 <= j < new_index && indices@[j] is Some && indices@[j].unwrap() > d
                        ==> d + dist <= indices@[j].unwrap()
            },
        decreases indices@.len() - new_index,
    {
        match indices[new_index] {
            None => {},
            Some(old_index) => {
                if old_index >= d {
                    let distance = old_index - d;
                    let replace = match closest {
                        Some((prev_distance, _)) => distance < prev_distance,
                        None => true,
                    };
                    if replace {
                        closest = Some((distance, new_index));
                        if distance == 1 {
                            proof {
                                assert forall|j: int|
                                    #![trigger indices@[j]]
                                    0 <= j < indices@.len() && indices@[j] is Some
                                        && indices@[j].unwrap() > d implies d + 1
                                    <= indices@[j].unwrap() by {}
                                assert(indices@[new_index as int] is Some
                                    && indices@[new_index as int].unwrap() > d);
                            }
                            return Some(new_index);
                        }
                    }
                }
            },
        }
        new_index = new_index + 1;
    }
    match closest {
        Some((_, p)) => {
            proof {
                assert(indices@[p as int] is Some && indices@[p as int].unwrap() > d);
            }
            Some(p)
        },
        None => None,
    }
}

/// A lingering child has the one position that [`place`] names.
pub proof fn lemma_next_after_unique(indices: Seq<Option<usize>>, p: int, q: int, d: usize)
    requires
        old_positions_distinct(indices),
        next_after(indices, p, d),
        next_after(indices, q, d),
    ensures
        p == q,
{
    if p < q {
        assert(indices[p].unwrap() <= indices[q].unwrap());
        assert(indices[q].unwrap() <= indices[p].unwrap());
    } else if q < p {
        assert(indices[p].unwrap() <= indices[q].unwrap());
        assert(indices[q].unwrap() <= indices[p].unwrap());
    }
}

/// Puts a lingering child where [`place`] says.
pub(crate) fn place_lingering<E>(children: &mut Vec<E>, indices: &mut Vec<Option<usize>>, d: usize, e: E)
    requires
        old(children)@.len() == old(indices)@.len(),
        old_positions_distinct(old(indices)@),
        old_position_absent(old(indices)@, d),
    ensures
        (final(children)@, final(indices)@) == place(old(children)@, old(indices)@, d, e),
        exists|p: int|
            0 <= p <= old(indices)@.len() && final(indices)@ == old(indices)@.insert(p, Some(d))
                && final(children)@ == old(children)@.insert(p, e),
        final(children)@.len() == final(indices)@.len(),
        old_positions_distinct(final(indices)@),
{
    match closest_to_next(indices, d) {
        Some(p) => {
            proof {
                let q = choose|q: int| next_after(old(indices)@, q, d);
                lemma_next_after_unique(old(indices)@, p as int, q, d);
            }
            children.insert(p, e);
            indices.insert(p, Some(d));
            proof {
                let s = indices@;
                assert(0 <= p <= old(indices)@.len() && s == old(indices)@.insert(p as int, Some(d))
                    && children@ == old(children)@.insert(p as int, e));
                assert forall|i: int, j: int|
                    #![trigger s[i], s[j]]
                    0 <= i < j < s.len() && s[i] is Some && s[j] is Some implies s[i].unwrap()
                    != s[j].unwrap() by {
                    let o = old(indices)@;
                    if i < p && j < p {
                        assert(s[i] == o[i] && s[j] == o[j]);
                    } else if i < p && j == p {
                        assert(s[i] == o[i]);
                    } else if i < p && j > p {
                        assert(s[i] == o[i] && s[j] == o[j - 1]);
                    } else if i == p {
                        assert(s[j] == o[j - 1]);
                    } else {
                        assert(s[i] == o[i - 1] && s[j] == o[j - 1]);
                    }
                }
            }
        },
        None => {
            children.push(e);
            indices.push(Some(d));
            proof {
                let s = indices@;
                let o = old(indices)@;
                assert(s =~= o.insert(o.len() as int, Some(d)));
                assert(children@ =~= old(children)@.insert(o.len() as int, e));
                assert forall|i: int, j: int|
                    #![trigger s[i], s[j]]
                    0 <= i < j < s.len() && s[i] is Some && s[j] is Some implies s[i].unwrap()
                    != s[j].unwrap() by {
                    if j < o.len() {
                        assert(s[i] == o[i] && s[j] == o[j]);
                    } else {
                        assert(s[i] == o[i]);
                    }
                }
            }
        },
    }
}



/// When some child stood after old position `d`, one of them stood closest.
pub proof fn lemma_next_after_exists(indices: Seq<Option<usize>>, d: usize, j: int)
    requires
        0 <= j < indices.len(),
        indices[j] is Some,
        indices[j].unwrap() > d,
    ensures
        exists|p: int| next_after(indices, p, d),
    decreases indices[j].unwrap(),
{
    if !next_after(indices, j, d) {
        let k = choose|k: int|
            #![trigger indices[k]]
            0 <= k < indices.len() && indices[k] is Some && indices[k].unwrap() > d
                && indices[k].unwrap() < indices[j].unwrap();
        lemma_next_after_exists(indices, d, k);
    }
}

/// A lingering child is inserted, with its old position, at a single place:
/// immediately before the child that stood closest after it in the old
/// order, or last when no child stood after it.
pub proof fn lemma_place_before_next<E>(children: Seq<E>, indices: Seq<Option<usize>>, d: usize, e: E)
    requires
        children.len() == indices.len(),
    ensures
        ({
            let (c, i) = place(children, indices, d, e);
            &&& exists|p: int|
                0 <= p <= children.len() && c == children.insert(p, e) && i == indices.insert(
                    p,
                    Some(d),
                )
            &&& has_later(indices, d) ==> exists|p: int|
                0 <= p && p + 1 < i.len() && c[p] == e && i[p] == Some(d) && next_after(
                    i,
                    p + 1,
                    d,
                )
            &&& !has_later(indices, d) ==> c.last() == e && i.last() == Some(d)
        }),
{
    let (c, i) = place(children, indices, d, e);
    if has_later(indices, d) {
        let j = choose|j: int|
            #![trigger indices[j]]
            0 <= j < indices.len() && indices[j] is Some && indices[j].unwrap() > d;
        lemma_next_after_exists(indices, d, j);
        let p = choose|p: int| next_after(indices, p, d);
        assert(c == children.insert(p, e) && i == indices.insert(p, Some(d)));
        assert(i[p + 1] == indices[p]);
        assert forall|k: int|
            #![trigger i[k]]
            0 <= k < i.len() && i[k] is Some && i[k].unwrap() > d implies i[p + 1].unwrap()
            <= i[k].unwrap() by {
            if k < p {
                assert(i[k] == indices[k]);
            } else if k > p {
                assert(i[k] == indices[k - 1]);
            }
        }
        assert(next_after(i, p + 1, d));
        assert(0 <= p && p + 1 < i.len() && c[p] == e && i[p] == Some(d));
        assert(0 <= p <= children.len() && c == children.insert(p, e) && i == indices.insert(
            p,
            Some(d),
        ));
    } else {
        let n = children.len() as int;
        assert(c =~= children.insert(n, e));
        assert(i =~= indices.insert(n, Some(d)));
        assert(0 <= n <= children.len() && c == children.insert(n, e) && i == indices.insert(
            n,
            Some(d),
        ));
    }
}

/// When no deleted child lingers, the children end up exactly in the order
/// in which they were described.
pub proof fn lemma_nothing_lingers<E>(
    children: Seq<E>,
    indices: Seq<Option<usize>>,
    deleted: Seq<OldChild<E>>,
    lingering: Seq<bool>,
)
    requires
        forall|k: int| #![trigger lingering[k]] 0 <= k < lingering.len() ==> !lingering[k],
    ensures
        arrange(children, indices, deleted, lingering) == (children, indices),
    decreases deleted.len(),
{
    if deleted.len() > 0 && lingering.len() > 0 {
        assert(!lingering[0]);
        let rest = lingering.drop_first();
        assert forall|k: int| #![trigger rest[k]] 0 <= k < rest.len() implies !rest[k] by {
            assert(rest[k] == lingering[k + 1]);
        }
        lemma_nothing_lingers(children, indices, deleted.drop_first(), rest);
    }
}

/// The number of deleted children that linger.
pub open spec fn lingering_count(lingering: Seq<bool>) -> nat
    decreases lingering.len(),
{
    if lingering.len() == 0 {
        0
    } else {
        (if lingering[0] {
            1nat
        } else {
            0nat
        }) + lingering_count(lingering.drop_first())
    }
}

/// Each child paired with its old position.
pub open spec fn paired<E>(children: Seq<E>, indices: Seq<Option<usize>>) -> Seq<(E, Option<usize>)> {
    Seq::new(children.len(), |k: int| (children[k], indices[k]))
}

/// The old position belongs to one of the deleted children that linger.
pub open spec fn lingers_at<E>(deleted: Seq<OldChild<E>>, lingering: Seq<bool>, o: Option<usize>) -> bool {
    exists|k: int|
        #![trigger deleted[k]]
        0 <= k < deleted.len() && k < lingering.len() && lingering[k] && o == Some(deleted[k].index)
}

/// Inserting an element that a filter drops leaves the filtered sequence as
/// it was.
proof fn lemma_filter_insert<A>(s: Seq<A>, p: int, x: A, keep: spec_fn(A) -> bool)
    requires
        0 <= p <= s.len(),
        !keep(x),
    ensures
        s.insert(p, x).filter(keep) == s.filter(keep),
{
    broadcast use Seq::filter_distributes_over_add;

    reveal_with_fuel(Seq::filter, 2);
    assert(s.insert(p, x) =~= s.take(p) + seq![x] + s.skip(p));
    assert(s =~= s.take(p) + s.skip(p));
    assert(seq![x].drop_last() =~= Seq::<A>::empty());
    assert(seq![x].filter(keep) =~= Seq::<A>::empty());
}

/// A filter that every element passes leaves a sequence as it is.
proof fn lemma_filter_keeps_all<A>(s: Seq<A>, keep: spec_fn(A) -> bool)
    requires
        forall|k: int| 0 <= k < s.len() ==> keep(#[trigger] s[k]),
    ensures
        s.filter(keep) == s,
    decreases s.len(),
{
    reveal(Seq::filter);
    if s.len() > 0 {
        lemma_filter_keeps_all(s.drop_last(), keep);
        assert(s.drop_last().push(s.last()) =~= s);
    }
}

/// Placing the lingering children only inserts children that a filter drops.
proof fn lemma_arrange_filter<E>(
    children: Seq<E>,
    indices: Seq<Option<usize>>,
    deleted: Seq<OldChild<E>>,
    lingering: Seq<bool>,
    keep: spec_fn((E, Option<usize>)) -> bool,
)
    requires
        children.len() == indices.len(),
        deleted.len() == lingering.len(),
        forall|k: int|
            #![trigger deleted[k]]
            0 <= k < deleted.len() && k < lingering.len() && lingering[k] ==> !keep(
                (deleted[k].entity, Some(deleted[k].index)),
            ),
    ensures
        ({
            let (c, i) = arrange(children, indices, deleted, lingering);
            &&& c.len() == i.len()
            &&& c.len() == children.len() + lingering_count(lingering)
            &&& paired(c, i).filter(keep) == paired(children, indices).filter(keep)
        }),
    decreases deleted.len(),
{
    if deleted.len() == 0 || lingering.len() == 0 {
    } else {
        let d = deleted[0].index;
        let e = deleted[0].entity;
        let (c1, i1) = if lingering[0] {
            place(children, indices, d, e)
        } else {
            (children, indices)
        };
        if lingering[0] {
            lemma_place_before_next(children, indices, d, e);
            let p = choose|p: int|
                0 <= p <= children.len() && c1 == children.insert(p, e) && i1 == indices.insert(
                    p,
                    Some(d),
                );
            assert(paired(c1, i1) =~= paired(children, indices).insert(p, (e, Some(d))));
            lemma_filter_insert(paired(children, indices), p, (e, Some(d)), keep);
        }
        let rest = deleted.drop_first();
        let rest_lingering = lingering.drop_first();
        assert forall|k: int|
            #![trigger rest[k]]
            0 <= k < rest.len() && k < rest_lingering.len() && rest_lingering[k] implies !keep(
            (rest[k].entity, Some(rest[k].index)),
        ) by {
            assert(rest[k] == deleted[k + 1]);
            assert(rest_lingering[k] == lingering[k + 1]);
        }
        lemma_arrange_filter(c1, i1, rest, rest_lingering, keep);
    }
}

/// Lingering children are only inserted among the others: with them taken
/// out, the children are exactly those described, in the order in which they
/// were described. There are as many more children as there are lingering
/// ones.
pub proof fn lemma_lingering_only_inserted<E>(
    children: Seq<E>,
    indices: Seq<Option<usize>>,
    deleted: Seq<OldChild<E>>,
    lingering: Seq<bool>,
)
    requires
        children.len() == indices.len(),
        deleted.len() == lingering.len(),
        forall|m: int|
            #![trigger deleted[m]]
            0 <= m < deleted.len() ==> old_position_absent(indices, deleted[m].index),
    ensures
        ({
            let (c, i) = arrange(children, indices, deleted, lingering);
            &&& c.len() == i.len()
            &&& c.len() == children.len() + lingering_count(lingering)
            &&& paired(c, i).filter(|x: (E, Option<usize>)| !lingers_at(deleted, lingering, x.1))
                == paired(children, indices)
        }),
{
    let keep = |x: (E, Option<usize>)| !lingers_at(deleted, lingering, x.1);
    assert forall|k: int|
        #![trigger deleted[k]]
        0 <= k < deleted.len() && k < lingering.len() && lingering[k] implies !keep(
        (deleted[k].entity, Some(deleted[k].index)),
    ) by {}
    lemma_arrange_filter(children, indices, deleted, lingering, keep);
    let s = paired(children, indices);
    assert forall|k: int| 0 <= k < s.len() implies keep(#[trigger] s[k]) by {
        if lingers_at(deleted, lingering, s[k].1) {
            let m = choose|m: int|
                #![trigger deleted[m]]
                0 <= m < deleted.len() && m < lingering.len() && lingering[m] && s[k].1 == Some(
                    deleted[m].index,
                );
            assert(old_position_absent(indices, deleted[m].index));
            assert(indices[k] == s[k].1);
        }
    }
    lemma_filter_keeps_all(s, keep);
}


/// In the final order, the lingering child `e` from old position `d` sits
/// right before the child that, of all those now there, stood closest after
/// it; or last, when none of them stood after it.
pub open spec fn sits_before_next<E>(c: Seq<E>, i: Seq<Option<usize>>, d: usize, e: E) -> bool {
    exists|p: int|
        #![trigger i[p]]
        0 <= p < i.len() && i[p] == Some(d) && c[p] == e && (has_later(i, d) ==> next_after(
            i,
            p + 1,
            d,
        )) && (!has_later(i, d) ==> p == i.len() - 1)
}

/// Where [`place`] puts a lingering child: before the child that stood
/// closest after it, or at the end.
proof fn lemma_place_shape<E>(c: Seq<E>, i: Seq<Option<usize>>, d: usize, e: E) -> (q: int)
    requires
        c.len() == i.len(),
    ensures
        0 <= q <= i.len(),
        place(c, i, d, e) == (c.insert(q, e), i.insert(q, Some(d))),
        has_later(i, d) ==> next_after(i, q, d),
        !has_later(i, d) ==> q == i.len(),
{
    if has_later(i, d) {
        let j = choose|j: int| #![trigger i[j]] 0 <= j < i.len() && i[j] is Some && i[j].unwrap() > d;
        lemma_next_after_exists(i, d, j);
        choose|q: int| next_after(i, q, d)
    } else {
        let n = i.len() as int;
        assert(c.push(e) =~= c.insert(n, e));
        assert(i.push(Some(d)) =~= i.insert(n, Some(d)));
        n
    }
}

/// Inserting an old position that occurs nowhere keeps the old positions
/// distinct, and leaves absent every other position that was.
proof fn lemma_insert_position(i: Seq<Option<usize>>, q: int, d: usize)
    requires
        0 <= q <= i.len(),
        old_positions_distinct(i),
        old_position_absent(i, d),
    ensures
        old_positions_distinct(i.insert(q, Some(d))),
        forall|x: usize| #![trigger old_position_absent(i, x)]
            x != d && old_position_absent(i, x) ==> old_position_absent(i.insert(q, Some(d)), x),
{
    let s = i.insert(q, Some(d));
    assert forall|a: int, b: int|
        #![trigger s[a], s[b]]
        0 <= a < b < s.len() && s[a] is Some && s[b] is Some implies s[a].unwrap() != s[b].unwrap() by {
        if a < q && b < q {
            assert(s[a] == i[a] && s[b] == i[b]);
        } else if a < q && b == q {
            assert(s[a] == i[a]);
        } else if a < q {
            assert(s[a] == i[a] && s[b] == i[b - 1]);
        } else if a == q {
            assert(s[b] == i[b - 1]);
        } else {
            assert(s[a] == i[a - 1] && s[b] == i[b - 1]);
        }
    }
    assert forall|x: usize| #![trigger old_position_absent(i, x)]
        x != d && old_position_absent(i, x) implies old_position_absent(s, x) by {
        assert forall|a: int| #![trigger s[a]] 0 <= a < s.len() implies s[a] != Some(x) by {
            if a < q {
                assert(s[a] == i[a]);
            } else if a > q {
                assert(s[a] == i[a - 1]);
            }
        }
    }
}

/// A lingering child, once placed, sits before its next.
proof fn lemma_place_sits<E>(c: Seq<E>, i: Seq<Option<usize>>, d: usize, e: E)
    requires
        c.len() == i.len(),
        old_position_absent(i, d),
    ensures
        ({
            let (c2, i2) = place(c, i, d, e);
            sits_before_next(c2, i2, d, e)
        }),
{
    let q = lemma_place_shape(c, i, d, e);
    let (c2, i2) = place(c, i, d, e);
    assert(i2[q] == Some(d) && c2[q] == e);
    if has_later(i, d) {
        assert(i2[q + 1] == i[q]);
        assert forall|j: int|
            #![trigger i2[j]]
            0 <= j < i2.len() && i2[j] is Some && i2[j].unwrap() > d implies i2[q + 1].unwrap()
            <= i2[j].unwrap() by {
            if j < q {
                assert(i2[j] == i[j]);
            } else if j > q {
                assert(i2[j] == i[j - 1]);
            }
        }
        assert(has_later(i2, d));
    } else {
        assert(!has_later(i2, d)) by {
            assert forall|j: int|
                #![trigger i2[j]]
                0 <= j < i2.len() implies !(i2[j] is Some && i2[j].unwrap() > d) by {
                if j < q {
                    assert(i2[j] == i[j]);
                }
            }
        }
    }
}

/// Placing another lingering child keeps a placed child before its next.
proof fn lemma_place_keeps<E>(c: Seq<E>, i: Seq<Option<usize>>, d: usize, e: E, d2: usize, e2: E)
    requires
        c.len() == i.len(),
        old_positions_distinct(i),
        old_position_absent(i, d2),
        sits_before_next(c, i, d, e),
    ensures
        ({
            let (c2, i2) = place(c, i, d2, e2);
            sits_before_next(c2, i2, d, e)
        }),
{
    let q = lemma_place_shape(c, i, d2, e2);
    let (c2, i2) = place(c, i, d2, e2);
    let p = choose|p: int|
        #![trigger i[p]]
        0 <= p < i.len() && i[p] == Some(d) && c[p] == e && (has_later(i, d) ==> next_after(
            i,
            p + 1,
            d,
        )) && (!has_later(i, d) ==> p == i.len() - 1);
    let p2 = if q <= p { p + 1 } else { p };
    assert(i2[p2] == Some(d) && c2[p2] == e);
    assert(d2 != d);
    if has_later(i, d) {
        let n = i[p + 1].unwrap();
        if q <= p {
            assert(i2[p2 + 1] == i[p + 1]);
        } else if q == p + 1 {
            assert(q < i.len());
            assert(next_after(i, q, d2));
            if d2 < d {
                assert(i[p].unwrap() > d2);
                assert(n <= i[p].unwrap());
            }
            assert(i2[p2 + 1] == Some(d2));
        } else {
            assert(i2[p2 + 1] == i[p + 1]);
        }
        // The child right after is the closest after `d` among all now there.
        assert forall|j: int|
            #![trigger i2[j]]
            0 <= j < i2.len() && i2[j] is Some && i2[j].unwrap() > d implies i2[p2 + 1].unwrap()
            <= i2[j].unwrap() by {
            if j == q {
                if q != p + 1 && d2 < n {
                    assert(next_after(i, q, d2));
                    assert(i[q].unwrap() <= n);
                    assert(n <= i[q].unwrap());
                }
            } else if j < q {
                assert(i2[j] == i[j]);
                if q == p + 1 {
                    assert(n <= i[j].unwrap());
                    assert(next_after(i, q, d2));
                }
            } else {
                assert(i2[j] == i[j - 1]);
                if q == p + 1 {
                    assert(next_after(i, q, d2));
                }
            }
        }
        assert(i2[p2 + 1] is Some && i2[p2 + 1].unwrap() > d);
        assert(has_later(i2, d));
        assert(next_after(i2, p2 + 1, d));
    } else {
        if d2 > d {
            assert(!has_later(i, d2)) by {
                assert forall|j: int|
                    #![trigger i[j]]
                    0 <= j < i.len() implies !(i[j] is Some && i[j].unwrap() > d2) by {}
            }
            assert(i2[p2 + 1] == Some(d2));
            assert forall|j: int|
                #![trigger i2[j]]
                0 <= j < i2.len() && i2[j] is Some && i2[j].unwrap() > d implies i2[p2 + 1].unwrap()
                <= i2[j].unwrap() by {
                if j < q {
                    assert(i2[j] == i[j]);
                }
            }
            assert(has_later(i2, d));
        } else {
            assert(has_later(i, d2)) by {
                assert(i[p] is Some && i[p].unwrap() > d2);
            }
            assert(!has_later(i2, d)) by {
                assert forall|j: int|
                    #![trigger i2[j]]
                    0 <= j < i2.len() implies !(i2[j] is Some && i2[j].unwrap() > d) by {
                    if j < q {
                        assert(i2[j] == i[j]);
                    } else if j > q {
                        assert(i2[j] == i[j - 1]);
                    }
                }
            }
        }
    }
}


/// Placing the remaining lingering children keeps a placed child before its
/// next.
proof fn lemma_arrange_keeps<E>(
    c: Seq<E>,
    i: Seq<Option<usize>>,
    deleted: Seq<OldChild<E>>,
    lingering: Seq<bool>,
    d: usize,
    e: E,
)
    requires
        c.len() == i.len(),
        deleted.len() == lingering.len(),
        old_positions_distinct(i),
        indices_distinct(deleted),
        forall|m: int|
            #![trigger deleted[m]]
            0 <= m < deleted.len() ==> old_position_absent(i, deleted[m].index),
        sits_before_next(c, i, d, e),
    ensures
        ({
            let (c2, i2) = arrange(c, i, deleted, lingering);
            sits_before_next(c2, i2, d, e)
        }),
    decreases deleted.len(),
{
    if deleted.len() > 0 && lingering.len() > 0 {
        lemma_arrange_step(c, i, deleted, lingering);
        let (c1, i1) = if lingering[0] {
            place(c, i, deleted[0].index, deleted[0].entity)
        } else {
            (c, i)
        };
        if lingering[0] {
            lemma_place_keeps(c, i, d, e, deleted[0].index, deleted[0].entity);
        }
        lemma_arrange_keeps(c1, i1, deleted.drop_first(), lingering.drop_first(), d, e);
    }
}

/// After the first lingering child is placed, what the rest of the placing
/// needs still holds.
proof fn lemma_arrange_step<E>(
    c: Seq<E>,
    i: Seq<Option<usize>>,
    deleted: Seq<OldChild<E>>,
    lingering: Seq<bool>,
)
    requires
        c.len() == i.len(),
        deleted.len() == lingering.len(),
        deleted.len() > 0,
        old_positions_distinct(i),
        indices_distinct(deleted),
        forall|m: int|
            #![trigger deleted[m]]
            0 <= m < deleted.len() ==> old_position_absent(i, deleted[m].index),
    ensures
        ({
            let (c1, i1) = if lingering[0] {
                place(c, i, deleted[0].index, deleted[0].entity)
            } else {
                (c, i)
            };
            let rest = deleted.drop_first();
            &&& c1.len() == i1.len()
            &&& old_positions_distinct(i1)
            &&& indices_distinct(rest)
            &&& forall|m: int|
                #![trigger rest[m]]
                0 <= m < rest.len() ==> old_position_absent(i1, rest[m].index)
        }),
{
    let rest = deleted.drop_first();
    assert forall|a: int, b: int|
        #![trigger rest[a], rest[b]]
        0 <= a < b < rest.len() implies rest[a].index != rest[b].index by {
        assert(rest[a] == deleted[a + 1] && rest[b] == deleted[b + 1]);
    }
    assert forall|m: int| #![trigger rest[m]] 0 <= m < rest.len() implies old_position_absent(
        i,
        rest[m].index,
    ) by {
        assert(rest[m] == deleted[m + 1]);
    }
    if lingering[0] {
        let d = deleted[0].index;
        assert(old_position_absent(i, d));
        let q = lemma_place_shape(c, i, d, deleted[0].entity);
        lemma_insert_position(i, q, d);
        assert forall|m: int| #![trigger rest[m]] 0 <= m < rest.len() implies old_position_absent(
            i.insert(q, Some(d)),
            rest[m].index,
        ) by {
            assert(rest[m] == deleted[m + 1]);
            assert(old_position_absent(i, rest[m].index));
        }
    }
}

/// Once all the lingering children are placed, each of them sits right
/// before the child that, of all the children in the final order, stood
/// closest after it; or last, when none of them stood after it.
pub proof fn lemma_lingering_placed<E>(
    children: Seq<E>,
    indices: Seq<Option<usize>>,
    deleted: Seq<OldChild<E>>,
    lingering: Seq<bool>,
)
    requires
        children.len() == indices.len(),
        deleted.len() == lingering.len(),
        old_positions_distinct(indices),
        indices_distinct(deleted),
        forall|m: int|
            #![trigger deleted[m]]
            0 <= m < deleted.len() ==> old_position_absent(indices, deleted[m].index),
    ensures
        ({
            let (c, i) = arrange(children, indices, deleted, lingering);
            forall|k: int|
                #![trigger deleted[k]]
                0 <= k < deleted.len() && lingering[k] ==> sits_before_next(
                    c,
                    i,
                    deleted[k].index,
                    deleted[k].entity,
                )
        }),
    decreases deleted.len(),
{
    if deleted.len() > 0 {
        lemma_arrange_step(children, indices, deleted, lingering);
        let (c1, i1) = if lingering[0] {
            place(children, indices, deleted[0].index, deleted[0].entity)
        } else {
            (children, indices)
        };
        let rest = deleted.drop_first();
        let rest_lingering = lingering.drop_first();
        lemma_lingering_placed(c1, i1, rest, rest_lingering);
        if lingering[0] {
            lemma_place_sits(children, indices, deleted[0].index, deleted[0].entity);
            lemma_arrange_keeps(c1, i1, rest, rest_lingering, deleted[0].index, deleted[0].entity);
        }
        let (c, i) = arrange(children, indices, deleted, lingering);
        assert forall|k: int|
            #![trigger deleted[k]]
            0 <= k < deleted.len() && lingering[k] implies sits_before_next(
            c,
            i,
            deleted[k].index,
            deleted[k].entity,
        ) by {
            if k > 0 {
                assert(rest[k - 1] == deleted[k]);
                assert(rest_lingering[k - 1] == lingering[k]);
            }
        }
    }
}

} // verus!
