//! Choosing the lowest of some costs.

use vstd::prelude::*;
use crate::binary64::Real;
use crate::factors::{counts_add_up, ClampEvents};

verus! {

/// Index of the first cost that no other is below, in the total order of bit patterns.
pub open spec fn lowest(costs: Seq<Real>) -> int
    decreases costs.len(),
{
    if costs.len() <= 1 {
        0
    } else {
        let best = lowest(costs.drop_last());
        if costs.last().rank() < costs[best].rank() {
            costs.len() - 1
        } else {
            best
        }
    }
}

/// Index of the last cost that was below all before it, compared as numbers.
pub open spec fn lowest_number(costs: Seq<Real>) -> int
    decreases costs.len(),
{
    if costs.len() <= 1 {
        0
    } else {
        let best = lowest_number(costs.drop_last());
        if costs.last().below(costs[best]) {
            costs.len() - 1
        } else {
            best
        }
    }
}

/// The choice is a cost that no other undercuts, and the first such.
pub proof fn lowest_is_minimal(costs: Seq<Real>)
    requires
        costs.len() > 0,
    ensures
        0 <= lowest(costs) < costs.len(),
        forall|i: int|
            0 <= i < costs.len() ==> costs[lowest(costs)].rank() <= (#[trigger] costs[i]).rank(),
        forall|i: int|
            0 <= i < lowest(costs) ==> costs[lowest(costs)].rank() < (#[trigger] costs[i]).rank(),
    decreases costs.len(),
{
    if costs.len() > 1 {
        let rest = costs.drop_last();
        lowest_is_minimal(rest);
        let best = lowest(rest);
        assert forall|i: int| 0 <= i < costs.len() implies costs[lowest(costs)].rank() <= (
        #[trigger] costs[i]).rank() by {
            if i < rest.len() {
                assert(rest[i] == costs[i]);
            }
        }
        assert forall|i: int| 0 <= i < lowest(costs) implies costs[lowest(costs)].rank() < (
        #[trigger] costs[i]).rank() by {
            assert(rest[i] == costs[i]);
        }
    }
}

/// Among costs that are numbers, the choice is one that no other undercuts.
pub proof fn lowest_number_is_minimal(costs: Seq<Real>)
    requires
        costs.len() > 0,
        forall|i: int| 0 <= i < costs.len() ==> !(#[trigger] costs[i]).is_nan(),
    ensures
        0 <= lowest_number(costs) < costs.len(),
        forall|i: int|
            0 <= i < costs.len() ==> costs[lowest_number(costs)].at_most(#[trigger] costs[i]),
    decreases costs.len(),
{
    if costs.len() > 1 {
        let rest = costs.drop_last();
        assert forall|i: int| 0 <= i < rest.len() implies !(#[trigger] rest[i]).is_nan() by {
            assert(rest[i] == costs[i]);
        }
        lowest_number_is_minimal(rest);
        let best = lowest_number(rest);
        assert(rest[best] == costs[best]);
        assert forall|i: int| 0 <= i < costs.len() implies costs[lowest_number(costs)].at_most(
            #[trigger] costs[i],
        ) by {
            if i < rest.len() {
                assert(rest[i] == costs[i]);
                assert(rest[best].at_most(rest[i]));
            }
        }
    } else {
        assert(!costs[0].is_nan());
    }
}

proof fn lemma_lowest_in_range(costs: Seq<Real>)
    requires
        costs.len() > 0,
    ensures
        0 <= lowest(costs) < costs.len(),
        0 <= lowest_number(costs) < costs.len(),
    decreases costs.len(),
{
    if costs.len() > 1 {
        lemma_lowest_in_range(costs.drop_last());
    }
}

/// Picks the lowest cost; of several the first.
pub fn pick_lowest(costs: &Vec<Real>) -> (r: Option<usize>)
    ensures
        match r {
            Some(i) => i < costs@.len() && i == lowest(costs@),
            None => costs@.len() == 0,
        },
{
    let n: usize = costs.len();
    if n == 0 {
        return None;
    }
    let mut best: usize = 0;
    for i in 1..n
        invariant
            n == costs@.len(),
            best < i,
            1 <= i <= n,
            best == lowest(costs@.take(i as int)),
    {
        assert(costs@.take(i + 1).drop_last() =~= costs@.take(i as int));
        if costs[i].total_rank() < costs[best].total_rank() {
            best = i;
        }
    }
    assert(costs@.take(n as int) =~= costs@);
    Some(best)
}

/// Picks the lowest cost as a number; of several the first.
pub fn pick_lowest_number(costs: &Vec<Real>) -> (r: Option<usize>)
    ensures
        match r {
            Some(i) => i < costs@.len() && i == lowest_number(costs@),
            None => costs@.len() == 0,
        },
{
    let n: usize = costs.len();
    if n == 0 {
        return None;
    }
    let mut best: usize = 0;
    for i in 1..n
        invariant
            n == costs@.len(),
            best < i,
            1 <= i <= n,
            best == lowest_number(costs@.take(i as int)),
    {
        assert(costs@.take(i + 1).drop_last() =~= costs@.take(i as int));
        if costs[i].lt(costs[best]) {
            best = i;
        }
    }
    assert(costs@.take(n as int) =~= costs@);
    Some(best)
}

/// The sum of some counts.
pub open spec fn total(counts: Seq<u64>) -> nat
    decreases counts.len(),
{
    if counts.len() == 0 {
        0
    } else {
        total(counts.drop_last()) + counts.last() as nat
    }
}

/// What is counted while the lowest cost is found: each comparison prices the best so far and the
/// next one.
pub open spec fn compared(costs: Seq<Real>, counts: Seq<u64>) -> nat
    decreases costs.len(),
{
    if costs.len() <= 1 || costs.len() != counts.len() {
        0
    } else {
        let before = costs.drop_last();
        compared(before, counts.drop_last()) + counts[lowest(before)] as nat
            + counts.last() as nat
    }
}

/// Picks the lowest cost; of several the first. What pricing each of them counts is counted as
/// often as it is compared.
pub fn pick_lowest_counted(
    costs: &Vec<Real>,
    counts: &Vec<u64>,
    events: &mut ClampEvents,
) -> (r: Option<usize>)
    requires
        counts@.len() == costs@.len(),
    ensures
        match r {
            Some(i) => i < costs@.len() && i == lowest(costs@),
            None => costs@.len() == 0,
        },
        *final(events) == old(events).plus(compared(costs@, counts@)),
{
    let ghost start = *events;
    proof {
        counts_add_up(start, 0, 0);
    }
    let n: usize = costs.len();
    if n == 0 {
        return None;
    }
    let mut best: usize = 0;
    assert(compared(costs@.take(1), counts@.take(1)) == 0);
    for i in 1..n
        invariant
            n == costs@.len(),
            n == counts@.len(),
            best < i,
            1 <= i <= n,
            best == lowest(costs@.take(i as int)),
            *events == start.plus(compared(costs@.take(i as int), counts@.take(i as int))),
    {
        let ghost before = compared(costs@.take(i as int), counts@.take(i as int));
        assert(costs@.take(i + 1).drop_last() =~= costs@.take(i as int));
        assert(counts@.take(i + 1).drop_last() =~= counts@.take(i as int));
        events.add_count(counts[best]);
        events.add_count(counts[i]);
        proof {
            let a = counts@[best as int] as nat;
            let b = counts@[i as int] as nat;
            counts_add_up(start, before, a);
            counts_add_up(start, before + a, b);
            assert(counts@.take(i + 1)[best as int] == counts@[best as int]);
        }
        if costs[i].total_rank() < costs[best].total_rank() {
            best = i;
        }
    }
    assert(costs@.take(n as int) =~= costs@);
    assert(counts@.take(n as int) =~= counts@);
    Some(best)
}

/// Adds up some counts.
pub fn add_total(counts: &Vec<u64>, events: &mut ClampEvents)
    ensures
        *final(events) == old(events).plus(total(counts@)),
{
    let ghost start = *events;
    proof {
        counts_add_up(start, 0, 0);
    }
    let n: usize = counts.len();
    for i in 0..n
        invariant
            n == counts@.len(),
            *events == start.plus(total(counts@.take(i as int))),
    {
        assert(counts@.take(i + 1).drop_last() =~= counts@.take(i as int));
        events.add_count(counts[i]);
        proof {
            counts_add_up(start, total(counts@.take(i as int)), counts@[i as int] as nat);
        }
    }
    assert(counts@.take(n as int) =~= counts@);
}

} // verus!
