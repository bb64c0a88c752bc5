//! Paths of steps that a component is moved along, one step at a time.
use vstd::prelude::*;
use std::time::Duration;
use crate::duration::{duration_checked_add, duration_nanos, duration_zero, max_duration_nanos};

verus! {

/// The sum of the lengths of some durations, in nanoseconds.
pub open spec fn total_nanos(durations: Seq<Duration>) -> nat
    decreases durations.len(),
{
    if durations.len() == 0 {
        0
    } else {
        total_nanos(durations.drop_last()) + duration_nanos(durations.last())
    }
}

/// A longer prefix of some durations adds up to at least as much.
pub proof fn lemma_total_nanos_prefix(durations: Seq<Duration>, a: int, b: int)
    requires
        0 <= a <= b <= durations.len(),
    ensures
        total_nanos(durations.take(a)) <= total_nanos(durations.take(b)),
    decreases b - a,
{
    if a < b {
        lemma_total_nanos_prefix(durations, a, b - 1);
        assert(durations.take(b).drop_last() =~= durations.take(b - 1));
    }
}

/// No durations add up to nothing; one more duration adds its length; and
/// two runs of durations, one after the other, add up to the sum of their
/// totals.
pub proof fn lemma_total_nanos_adds(a: Seq<Duration>, b: Seq<Duration>, d: Duration)
    ensures
        total_nanos(Seq::<Duration>::empty()) == 0,
        total_nanos(seq![d]) == duration_nanos(d),
        total_nanos(a.push(d)) == total_nanos(a) + duration_nanos(d),
        total_nanos(a + b) == total_nanos(a) + total_nanos(b),
    decreases b.len(),
{
    assert(a.push(d).drop_last() =~= a);
    assert(seq![d].drop_last() =~= Seq::<Duration>::empty());
    if b.len() > 0 {
        lemma_total_nanos_adds(a, b.drop_last(), d);
        assert((a + b).drop_last() =~= a + b.drop_last());
    } else {
        assert(a + b =~= a);
    }
}

/// Adds up the durations of the steps of a path. Returns `None` when the
/// total is longer than a `Duration` can hold.
pub fn total_duration(durations: &Vec<Duration>) -> (r: Option<Duration>)
    ensures
        r is Some <==> total_nanos(durations@) <= max_duration_nanos(),
        r is Some ==> duration_nanos(r.unwrap()) == total_nanos(durations@),
        durations@.len() == 0 ==> r is Some && duration_nanos(r.unwrap()) == 0,
        durations@.len() == 1 ==> (r is Some <==> duration_nanos(durations@[0]) <= max_duration_nanos()),
        durations@.len() == 1 && r is Some ==> duration_nanos(r.unwrap()) == duration_nanos(
            durations@[0],
        ),
{
    proof {
        if durations@.len() == 1 {
            lemma_total_nanos_adds(Seq::<Duration>::empty(), Seq::<Duration>::empty(), durations@[0]);
            assert(durations@ =~= seq![durations@[0]]);
        }
    }
    let mut total = duration_zero();
    let mut k: usize = 0;
    while k < durations.len()
        invariant
            0 <= k <= durations@.len(),
            duration_nanos(total) == total_nanos(durations@.take(k as int)),
            total_nanos(durations@.take(k as int)) <= max_duration_nanos(),
        decreases durations@.len() - k,
    {
        assert(durations@.take(k + 1).drop_last() =~= durations@.take(k as int));
        match duration_checked_add(total, durations[k]) {
            Some(t) => {
                total = t;
            },
            None => {
                proof {
                    lemma_total_nanos_prefix(durations@, k + 1, durations@.len() as int);
                    assert(durations@.take(durations@.len() as int) =~= durations@);
                }
                return None;
            },
        }
        k = k + 1;
    }
    assert(durations@.take(durations@.len() as int) =~= durations@);
    Some(total)
}

/// Which step of a path a component starts at when its node is set:
///
/// - a path that was suspended by a deletion resumes at the step it had
///   reached, or at the last step if the path is shorter now;
/// - otherwise a path that differs from the previous one, or one set for the
///   first time, starts at its first step;
/// - the same path as before keeps its progress (`None`).
///
/// `same_as_previous` is `None` when the component had no path before.
pub fn starting_step(suspended_at: Option<usize>, same_as_previous: Option<bool>, step_count: usize) -> (r: Option<usize>)
    ensures
        suspended_at matches Some(s) ==> r == Some(
            if s < step_count - 1 { s } else if step_count == 0 { 0 } else { (step_count - 1) as usize },
        ),
        suspended_at is None && same_as_previous == Some(true) ==> r is None,
        suspended_at is None && same_as_previous != Some(true) ==> r == Some(0usize),
{
    match suspended_at {
        Some(s) => {
            let last = if step_count == 0 { 0 } else { step_count - 1 };
            Some(if s < last { s } else { last })
        },
        None => match same_as_previous {
            Some(true) => None,
            _ => Some(0),
        },
    }
}

/// The steps of a path.
#[derive(Debug, Clone, PartialEq)]
pub struct TransitionPath<S> {
    pub steps: Vec<S>,
}

/// A path that a component is moving along, and the step it has reached.
pub struct TransitionPathComponent<S> {
    pub path: TransitionPath<S>,
    pub index: usize,
}

impl<S> TransitionPathComponent<S> {
    /// The step being taken, or `None` once the path is complete.
    pub fn current_step(&self) -> (r: Option<&S>)
        ensures
            self.index < self.path.steps@.len() ==> r == Some(&self.path.steps@[self.index as int]),
            self.index >= self.path.steps@.len() ==> r is None,
    {
        if self.index < self.path.steps.len() {
            Some(&self.path.steps[self.index])
        } else {
            None
        }
    }

    /// Moves on to the next step.
    pub fn go_to_next_step(&mut self)
        requires
            old(self).index < usize::MAX,
        ensures
            final(self).index == old(self).index + 1,
            final(self).path == old(self).path,
    {
        self.index = self.index + 1;
    }
}

} // verus!
