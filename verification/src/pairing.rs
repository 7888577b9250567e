//! Pairing of prefill and decode backends.
//!
//! Routing pairs greedily: prefill first, then decode given prefill. The regret against the best
//! pair is measured in shadow.

use vstd::prelude::*;
use vstd::arithmetic::div_mod::lemma_fundamental_div_mod_converse;
use crate::backend::{service_cost, service_log, warmth_reward, Backend, BackendState};
use crate::binary64::{difference, larger, one, smaller, sum, zero, Real, ONE_BITS};
use crate::elementary::{evaluate, is_function, value_at};
use crate::factors::{
    count_is_exact, counts_add_up, penalties, penalty_or_highest, rewards, unusable_penalty,
    unusable_time, warmth_discount, BarrierFactor, ClampEvents, Cost, Discount,
};
use crate::params::MAX_SERVICE_BARRIERS;
use crate::rebalancer::HALF_BITS;
use crate::rounding::INFINITY_BITS;
use crate::selection::{compared, lowest, lowest_number, pick_lowest_counted, pick_lowest_number};
use crate::text::same_text;

verus! {

/// A backend of one of the pools with its log-costs: for prefill, for decode where prefill ran,
/// and for decode after prefill elsewhere.
#[derive(Debug)]
pub struct PairTarget {
    pub label: String,
    pub prefill_ln: Real,
    pub near_ln: Real,
    pub far_ln: Real,
    /// What pricing each of them counts of signals that cannot be used.
    pub prefill_clamps: u64,
    pub near_clamps: u64,
    pub far_clamps: u64,
}

/// A target, as the contracts see it.
pub struct TargetView {
    pub label: Seq<char>,
    pub prefill: Real,
    pub near: Real,
    pub far: Real,
    pub prefill_clamps: u64,
    pub near_clamps: u64,
    pub far_clamps: u64,
}

impl TargetView {
    /// The log-cost of decoding here after prefill on a label.
    pub open spec fn decode(self, prefill_label: Seq<char>) -> Real {
        if prefill_label == self.label {
            self.near
        } else {
            self.far
        }
    }

    /// What pricing decode here after prefill on a label counts.
    pub open spec fn decode_clamps(self, prefill_label: Seq<char>) -> u64 {
        if prefill_label == self.label {
            self.near_clamps
        } else {
            self.far_clamps
        }
    }
}

impl View for PairTarget {
    type V = TargetView;

    open spec fn view(&self) -> TargetView {
        TargetView {
            label: self.label@,
            prefill: self.prefill_ln,
            near: self.near_ln,
            far: self.far_ln,
            prefill_clamps: self.prefill_clamps,
            near_clamps: self.near_clamps,
            far_clamps: self.far_clamps,
        }
    }
}

/// The targets behind a pool.
pub open spec fn targets(pool: Seq<PairTarget>) -> Seq<TargetView> {
    pool.map_values(|t: PairTarget| t@)
}

/// Prefill costs of a pool.
pub open spec fn prefill_costs(pool: Seq<TargetView>) -> Seq<Real> {
    pool.map_values(|t: TargetView| t.prefill)
}

/// Decode costs of a pool after prefill on a label.
pub open spec fn decode_costs(pool: Seq<TargetView>, prefill_label: Seq<char>) -> Seq<Real> {
    pool.map_values(|t: TargetView| t.decode(prefill_label))
}

/// What pricing each backend of a pool for prefill counts.
pub open spec fn prefill_counts(pool: Seq<TargetView>) -> Seq<u64> {
    pool.map_values(|t: TargetView| t.prefill_clamps)
}

/// What pricing each backend of a pool for decode after prefill on a label counts.
pub open spec fn decode_counts(pool: Seq<TargetView>, prefill_label: Seq<char>) -> Seq<u64> {
    pool.map_values(|t: TargetView| t.decode_clamps(prefill_label))
}

/// What pricing a pair counts.
pub open spec fn joint_clamps(pf: TargetView, dc: TargetView) -> nat {
    pf.prefill_clamps as nat + dc.decode_clamps(pf.label) as nat
}

/// What pricing every pair with one prefill backend counts, of the first decode backends.
pub open spec fn row_clamps(pf: TargetView, dcs: Seq<TargetView>) -> nat
    decreases dcs.len(),
{
    if dcs.len() == 0 {
        0
    } else {
        row_clamps(pf, dcs.drop_last()) + joint_clamps(pf, dcs.last())
    }
}

/// What pricing every pair counts.
pub open spec fn pairs_clamps(pfs: Seq<TargetView>, dcs: Seq<TargetView>) -> nat
    decreases pfs.len(),
{
    if pfs.len() == 0 {
        0
    } else {
        pairs_clamps(pfs.drop_last(), dcs) + row_clamps(pfs.last(), dcs)
    }
}

/// What pairing greedily counts: each comparison prices two backends.
pub open spec fn greedy_clamps(pfs: Seq<TargetView>, dcs: Seq<TargetView>) -> nat {
    let label = pfs[greedy_prefill(pfs)].label;
    compared(prefill_costs(pfs), prefill_counts(pfs)) + compared(
        decode_costs(dcs, label),
        decode_counts(dcs, label),
    )
}

/// What measuring the regret counts: pairing greedily, pricing that pair, and pricing every pair.
pub open spec fn regret_clamps(pfs: Seq<TargetView>, dcs: Seq<TargetView>) -> nat {
    if pfs.len() == 0 || dcs.len() == 0 {
        0
    } else {
        greedy_clamps(pfs, dcs) + joint_clamps(
            pfs[greedy_prefill(pfs)],
            dcs[greedy_decode(pfs, dcs)],
        ) + pairs_clamps(pfs, dcs)
    }
}

/// The log-cost of a pair.
pub open spec fn joint(pf: TargetView, dc: TargetView) -> Real {
    sum(pf.prefill, dc.decode(pf.label))
}

/// The log-costs of all pairs, one prefill backend after the other.
pub open spec fn joint_costs(pfs: Seq<TargetView>, dcs: Seq<TargetView>) -> Seq<Real> {
    Seq::new(
        (pfs.len() * dcs.len()) as nat,
        |k: int| joint(pfs[k / (dcs.len() as int)], dcs[k % (dcs.len() as int)]),
    )
}

/// The smallest of some costs, infinity without any.
pub open spec fn smallest(costs: Seq<Real>) -> Real
    decreases costs.len(),
{
    if costs.len() == 0 {
        Real { bits: INFINITY_BITS }
    } else {
        smaller(smallest(costs.drop_last()), costs.last())
    }
}

/// Index of the greedy prefill choice.
pub open spec fn greedy_prefill(pfs: Seq<TargetView>) -> int {
    lowest(prefill_costs(pfs))
}

/// Index of the greedy decode choice.
pub open spec fn greedy_decode(pfs: Seq<TargetView>, dcs: Seq<TargetView>) -> int {
    lowest(decode_costs(dcs, pfs[greedy_prefill(pfs)].label))
}

/// The log-cost of the greedy pair.
pub open spec fn greedy_cost(pfs: Seq<TargetView>, dcs: Seq<TargetView>) -> Real {
    joint(pfs[greedy_prefill(pfs)], dcs[greedy_decode(pfs, dcs)])
}

/// How much more the greedy pair costs than the best one, relative to the best; zero if a pool is
/// empty.
pub open spec fn regret<G: Fn(Real) -> Real>(
    pfs: Seq<TargetView>,
    dcs: Seq<TargetView>,
    exp: G,
) -> Real {
    if pfs.len() == 0 || dcs.len() == 0 {
        zero()
    } else {
        difference(
            value_at(exp, difference(greedy_cost(pfs, dcs), smallest(joint_costs(pfs, dcs)))),
            one(),
        )
    }
}

/// Picks the prefill target with the lowest cost.
pub fn select_prefill_target(
    candidates: &Vec<PairTarget>,
    events: &mut ClampEvents,
) -> (r: Option<usize>)
    ensures
        match r {
            Some(i) => i < candidates@.len() && i == greedy_prefill(targets(candidates@)),
            None => candidates@.len() == 0,
        },
        *final(events) == old(events).plus(
            compared(
                prefill_costs(targets(candidates@)),
                prefill_counts(targets(candidates@)),
            ),
        ),
{
    let ghost all = prefill_costs(targets(candidates@));
    let ghost each = prefill_counts(targets(candidates@));
    let n: usize = candidates.len();
    let mut costs: Vec<Real> = Vec::new();
    let mut counts: Vec<u64> = Vec::new();
    for i in 0..n
        invariant
            n == candidates@.len(),
            all == prefill_costs(targets(candidates@)),
            each == prefill_counts(targets(candidates@)),
            costs@ =~= all.take(i as int),
            counts@ =~= each.take(i as int),
    {
        costs.push(candidates[i].prefill_ln);
        counts.push(candidates[i].prefill_clamps);
    }
    assert(costs@ =~= all);
    assert(counts@ =~= each);
    pick_lowest_counted(&costs, &counts, events)
}

impl PairTarget {
    /// The log-cost of decoding here after prefill on a label.
    pub fn decode_ln(&self, prefill_label: &str) -> (r: Real)
        ensures
            r == self@.decode(prefill_label@),
    {
        if same_text(prefill_label, self.label.as_str()) {
            self.near_ln
        } else {
            self.far_ln
        }
    }

    /// What pricing decode here after prefill on a label counts.
    pub fn decode_clamps(&self, prefill_label: &str) -> (r: u64)
        ensures
            r == self@.decode_clamps(prefill_label@),
    {
        if same_text(prefill_label, self.label.as_str()) {
            self.near_clamps
        } else {
            self.far_clamps
        }
    }
}

/// Picks the decode target with the lowest cost after prefill on a label.
pub fn select_decode_target(
    prefill_label: &str,
    candidates: &Vec<PairTarget>,
    events: &mut ClampEvents,
) -> (r: Option<usize>)
    ensures
        match r {
            Some(i) => i < candidates@.len() && i == lowest(
                decode_costs(targets(candidates@), prefill_label@),
            ),
            None => candidates@.len() == 0,
        },
        *final(events) == old(events).plus(
            compared(
                decode_costs(targets(candidates@), prefill_label@),
                decode_counts(targets(candidates@), prefill_label@),
            ),
        ),
{
    let ghost all = decode_costs(targets(candidates@), prefill_label@);
    let ghost each = decode_counts(targets(candidates@), prefill_label@);
    let n: usize = candidates.len();
    let mut costs: Vec<Real> = Vec::new();
    let mut counts: Vec<u64> = Vec::new();
    for i in 0..n
        invariant
            n == candidates@.len(),
            all == decode_costs(targets(candidates@), prefill_label@),
            each == decode_counts(targets(candidates@), prefill_label@),
            costs@ =~= all.take(i as int),
            counts@ =~= each.take(i as int),
    {
        costs.push(candidates[i].decode_ln(prefill_label));
        counts.push(candidates[i].decode_clamps(prefill_label));
    }
    assert(costs@ =~= all);
    assert(counts@ =~= each);
    pick_lowest_counted(&costs, &counts, events)
}

/// Pairs greedily: prefill first, then decode given prefill.
pub fn greedy_pair(
    prefill_pool: &Vec<PairTarget>,
    decode_pool: &Vec<PairTarget>,
    events: &mut ClampEvents,
) -> (r: (usize, usize))
    requires
        prefill_pool@.len() > 0,
        decode_pool@.len() > 0,
    ensures
        r.0 < prefill_pool@.len(),
        r.1 < decode_pool@.len(),
        r.0 == greedy_prefill(targets(prefill_pool@)),
        r.1 == greedy_decode(targets(prefill_pool@), targets(decode_pool@)),
        *final(events) == old(events).plus(
            greedy_clamps(targets(prefill_pool@), targets(decode_pool@)),
        ),
{
    let pf: usize = select_prefill_target(prefill_pool, events).unwrap();
    let label: &str = prefill_pool[pf].label.as_str();
    let dc: usize = select_decode_target(label, decode_pool, events).unwrap();
    proof {
        let pfs = targets(prefill_pool@);
        let dcs = targets(decode_pool@);
        assert(pfs[pf as int].label == label@);
        counts_add_up(
            *old(events),
            compared(prefill_costs(pfs), prefill_counts(pfs)),
            compared(decode_costs(dcs, label@), decode_counts(dcs, label@)),
        );
    }
    (pf, dc)
}

/// Counts what pricing every pair counts.
fn count_pairs(
    prefill_pool: &Vec<PairTarget>,
    decode_pool: &Vec<PairTarget>,
    events: &mut ClampEvents,
)
    ensures
        *final(events) == old(events).plus(
            pairs_clamps(targets(prefill_pool@), targets(decode_pool@)),
        ),
{
    let ghost pfs = targets(prefill_pool@);
    let ghost dcs = targets(decode_pool@);
    let ghost start = *events;
    proof {
        counts_add_up(start, 0, 0);
    }
    let n: usize = prefill_pool.len();
    let m: usize = decode_pool.len();
    for i in 0..n
        invariant
            n == prefill_pool@.len(),
            m == decode_pool@.len(),
            pfs == targets(prefill_pool@),
            dcs == targets(decode_pool@),
            *events == start.plus(pairs_clamps(pfs.take(i as int), dcs)),
    {
        let ghost done = pairs_clamps(pfs.take(i as int), dcs);
        let ghost pf = pfs[i as int];
        proof {
            assert(pfs.take(i + 1).drop_last() =~= pfs.take(i as int));
            counts_add_up(start.plus(done), 0, 0);
        }
        for j in 0..m
            invariant
                i < n,
                n == prefill_pool@.len(),
                m == decode_pool@.len(),
                pfs == targets(prefill_pool@),
                dcs == targets(decode_pool@),
                pf == pfs[i as int],
                *events == start.plus(done).plus(row_clamps(pf, dcs.take(j as int))),
        {
            let ghost row = row_clamps(pf, dcs.take(j as int));
            let p = &prefill_pool[i];
            let d = &decode_pool[j];
            let near: u64 = d.decode_clamps(p.label.as_str());
            events.add_count(p.prefill_clamps);
            events.add_count(near);
            proof {
                assert(dcs.take(j + 1).drop_last() =~= dcs.take(j as int));
                assert(dcs[j as int] == d@ && pf == p@);
                let base = start.plus(done);
                counts_add_up(base, row, p.prefill_clamps as nat);
                counts_add_up(base, row + p.prefill_clamps as nat, near as nat);
            }
        }
        proof {
            assert(dcs.take(m as int) =~= dcs);
            counts_add_up(start, done, row_clamps(pf, dcs));
        }
    }
    assert(pfs.take(n as int) =~= pfs);
}

fn all_pairs(prefill_pool: &Vec<PairTarget>, decode_pool: &Vec<PairTarget>) -> (r: Vec<Real>)
    ensures
        r@ == joint_costs(targets(prefill_pool@), targets(decode_pool@)),
{
    let ghost pfs = targets(prefill_pool@);
    let ghost dcs = targets(decode_pool@);
    let n: usize = prefill_pool.len();
    let m: usize = decode_pool.len();
    let ghost all = joint_costs(pfs, dcs);
    let mut costs: Vec<Real> = Vec::new();
    assert(0 * m == 0) by (nonlinear_arith);
    for i in 0..n
        invariant
            n == prefill_pool@.len(),
            m == decode_pool@.len(),
            pfs == targets(prefill_pool@),
            dcs == targets(decode_pool@),
            all == joint_costs(pfs, dcs),
            costs@.len() == i * m,
            forall|k: int| 0 <= k < costs@.len() ==> #[trigger] costs@[k] == all[k],
    {
        proof {
            assert(i * m <= n * m - m) by (nonlinear_arith)
                requires
                    i + 1 <= n,
                    m >= 0,
            ;
        }
        for j in 0..m
            invariant
                i < n,
                n == prefill_pool@.len(),
                m == decode_pool@.len(),
                pfs == targets(prefill_pool@),
                dcs == targets(decode_pool@),
                all == joint_costs(pfs, dcs),
                i * m <= n * m - m,
                costs@.len() == i * m + j,
                forall|k: int| 0 <= k < costs@.len() ==> #[trigger] costs@[k] == all[k],
        {
            let pf = &prefill_pool[i];
            let cost: Real = pf.prefill_ln.plus(decode_pool[j].decode_ln(pf.label.as_str()));
            proof {
                lemma_fundamental_div_mod_converse(
                    i * m + j,
                    m as int,
                    i as int,
                    j as int,
                );
                assert(0 <= i * m) by (nonlinear_arith)
                    requires
                        i >= 0,
                        m >= 0,
                ;
                assert(all[i * m + j] == joint(pfs[i as int], dcs[j as int]));
            }
            costs.push(cost);
        }
        proof {
            assert((i + 1) * m == i * m + m) by (nonlinear_arith);
        }
    }
    assert(costs@ =~= all);
    costs
}

/// The best pair; of several the first.
pub fn oracle_pair(
    prefill_pool: &Vec<PairTarget>,
    decode_pool: &Vec<PairTarget>,
    events: &mut ClampEvents,
) -> (r: (usize, usize))
    requires
        prefill_pool@.len() > 0,
        decode_pool@.len() > 0,
    ensures
        r.0 < prefill_pool@.len(),
        r.1 < decode_pool@.len(),
        r.0 * decode_pool@.len() + r.1 == lowest_number(
            joint_costs(targets(prefill_pool@), targets(decode_pool@)),
        ),
        *final(events) == old(events).plus(
            pairs_clamps(targets(prefill_pool@), targets(decode_pool@)),
        ),
{
    count_pairs(prefill_pool, decode_pool, events);
    let costs: Vec<Real> = all_pairs(prefill_pool, decode_pool);
    let m: usize = decode_pool.len();
    proof {
        assert(prefill_pool@.len() * decode_pool@.len() > 0) by (nonlinear_arith)
            requires
                prefill_pool@.len() > 0,
                decode_pool@.len() > 0,
        ;
    }
    let k: usize = pick_lowest_number(&costs).unwrap();
    let pf: usize = k / m;
    let dc: usize = k % m;
    proof {
        vstd::arithmetic::div_mod::lemma_fundamental_div_mod(k as int, m as int);
        assert(pf < prefill_pool@.len()) by (nonlinear_arith)
            requires
                k == m * pf + dc,
                0 <= dc,
                k < prefill_pool@.len() * m,
                m > 0,
        ;
        assert(pf * m == m * pf) by (nonlinear_arith);
    }
    (pf, dc)
}

/// Measures the regret of pairing greedily; `exp` is the exponential function.
pub fn pairing_regret_targets<G: Fn(Real) -> Real + Copy>(
    prefill_pool: &Vec<PairTarget>,
    decode_pool: &Vec<PairTarget>,
    exp: G,
    events: &mut ClampEvents,
) -> (r: Real)
    requires
        is_function(exp),
    ensures
        r == regret(targets(prefill_pool@), targets(decode_pool@), exp),
        *final(events) == old(events).plus(
            regret_clamps(targets(prefill_pool@), targets(decode_pool@)),
        ),
{
    if prefill_pool.len() == 0 || decode_pool.len() == 0 {
        proof {
            counts_add_up(*old(events), 0, 0);
        }
        return Real::from_bits(0);
    }
    let ghost pfs = targets(prefill_pool@);
    let ghost dcs = targets(decode_pool@);
    let (pf, dc) = greedy_pair(prefill_pool, decode_pool, events);
    let label: &str = prefill_pool[pf].label.as_str();
    let ghost a = greedy_clamps(pfs, dcs);
    let ghost b = prefill_pool@[pf as int].prefill_clamps as nat;
    let ghost c = dcs[dc as int].decode_clamps(label@) as nat;
    events.add_count(prefill_pool[pf].prefill_clamps);
    events.add_count(decode_pool[dc].decode_clamps(label));
    count_pairs(prefill_pool, decode_pool, events);
    proof {
        assert(pfs[pf as int] == prefill_pool@[pf as int]@);
        assert(dcs[dc as int] == decode_pool@[dc as int]@);
        counts_add_up(*old(events), a, b);
        counts_add_up(*old(events), a + b, c);
        counts_add_up(*old(events), a + b + c, pairs_clamps(pfs, dcs));
    }
    let greedy: Real = prefill_pool[pf].prefill_ln.plus(decode_pool[dc].decode_ln(label));
    let costs: Vec<Real> = all_pairs(prefill_pool, decode_pool);
    let n: usize = costs.len();
    let mut oracle: Real = Real::from_bits(INFINITY_BITS);
    for i in 0..n
        invariant
            n == costs@.len(),
            oracle == smallest(costs@.take(i as int)),
    {
        assert(costs@.take(i + 1).drop_last() =~= costs@.take(i as int));
        oracle = oracle.min_with(costs[i]);
    }
    assert(costs@.take(n as int) =~= costs@);
    evaluate(exp, greedy.minus(oracle)).minus(Real::from_bits(ONE_BITS))
}

/// The smallest cost is at most each of them.
pub proof fn lemma_smallest(costs: Seq<Real>, i: int)
    requires
        0 <= i < costs.len(),
        forall|j: int| 0 <= j < costs.len() ==> !(#[trigger] costs[j]).is_nan(),
    ensures
        !smallest(costs).is_nan(),
        smallest(costs).at_most(costs[i]),
    decreases costs.len(),
{
    let rest = costs.drop_last();
    assert forall|j: int| 0 <= j < rest.len() implies !(#[trigger] rest[j]).is_nan() by {
        assert(rest[j] == costs[j]);
    }
    assert(!costs.last().is_nan());
    if rest.len() > 0 {
        lemma_smallest(rest, if i < rest.len() {
            i
        } else {
            0
        });
        if i < rest.len() {
            assert(rest[i] == costs[i]);
        }
    }
}

/// The greedy pair is never cheaper than the best one.
pub proof fn greedy_never_beats_oracle(pfs: Seq<TargetView>, dcs: Seq<TargetView>)
    requires
        pfs.len() > 0,
        dcs.len() > 0,
        forall|k: int|
            0 <= k < joint_costs(pfs, dcs).len() ==> !(#[trigger] joint_costs(
                pfs,
                dcs,
            )[k]).is_nan(),
    ensures
        smallest(joint_costs(pfs, dcs)).at_most(greedy_cost(pfs, dcs)),
{
    crate::selection::lowest_is_minimal(prefill_costs(pfs));
    let i = greedy_prefill(pfs);
    crate::selection::lowest_is_minimal(decode_costs(dcs, pfs[i].label));
    let j = greedy_decode(pfs, dcs);
    let m = dcs.len() as int;
    let k = i * m + j;
    assert(0 <= k < pfs.len() * dcs.len()) by (nonlinear_arith)
        requires
            0 <= i < pfs.len(),
            0 <= j < m,
            m == dcs.len(),
            k == i * m + j,
    ;
    lemma_fundamental_div_mod_converse(k, m, i, j);
    lemma_smallest(joint_costs(pfs, dcs), k);
}

/// The targets of a live backend: its costs at equal pool shares, with the warmth each pool sees.
pub open spec fn live_target<F: Fn(Real) -> Real>(
    b: BackendState,
    prefill_strength: Option<Real>,
    decode_strength: Option<Real>,
    transfer_penalty: Real,
    ln: F,
) -> TargetView {
    let half = Real { bits: HALF_BITS };
    TargetView {
        label: b.label,
        prefill: b.cost_log(ln, Seq::empty(), warmth_reward(prefill_strength), half, true),
        near: b.cost_log(ln, Seq::empty(), warmth_reward(decode_strength), half, false),
        far: b.cost_log(
            ln,
            seq![penalty_or_highest(larger(transfer_penalty, one()))],
            warmth_reward(decode_strength),
            half,
            false,
        ),
        prefill_clamps: b.cost_clamps(0, warmth_reward(prefill_strength), half, true) as u64,
        near_clamps: b.cost_clamps(0, warmth_reward(decode_strength), half, false) as u64,
        far_clamps: (unusable_penalty(larger(transfer_penalty, one())) + b.cost_clamps(
            1,
            warmth_reward(decode_strength),
            half,
            false,
        )) as u64,
    }
}

/// Prices a live backend for pairing.
pub fn pair_target<F: Fn(Real) -> Real + Copy>(
    backend: &Backend,
    prefill_strength: Option<Real>,
    decode_strength: Option<Real>,
    transfer_penalty: Real,
    ln: F,
) -> (r: PairTarget)
    requires
        is_function(ln),
    ensures
        r@ == live_target(backend@, prefill_strength, decode_strength, transfer_penalty, ln),
{
    let none: Vec<BarrierFactor> = Vec::new();
    assert(penalties(none@) =~= Seq::<Real>::empty());
    let mut for_prefill: ClampEvents = ClampEvents::new();
    let mut for_near: ClampEvents = ClampEvents::new();
    let mut for_far: ClampEvents = ClampEvents::new();
    let mut far: Vec<BarrierFactor> = Vec::new();
    let penalty: Real = transfer_penalty.max_with(Real::from_bits(ONE_BITS));
    far.push(BarrierFactor::clamped(penalty, &mut for_far));
    assert(penalties(far@) =~= seq![penalty_or_highest(larger(transfer_penalty, one()))]);
    let prefill_ln: Real = backend.cost_with_warmth(
        none.as_slice(),
        prefill_strength,
        false,
        ln,
        &mut for_prefill,
    ).ln();
    let near_ln: Real = backend.cost_with_warmth(
        none.as_slice(),
        decode_strength,
        true,
        ln,
        &mut for_near,
    ).ln();
    let far_ln: Real = backend.cost_with_warmth(
        far.as_slice(),
        decode_strength,
        true,
        ln,
        &mut for_far,
    ).ln();
    proof {
        let half = Real { bits: HALF_BITS };
        let none = ClampEvents { count: 0 };
        let lead = unusable_penalty(larger(transfer_penalty, one()));
        let reward = warmth_reward(decode_strength);
        count_is_exact(
            none,
            backend@.cost_clamps(0, warmth_reward(prefill_strength), half, true),
        );
        count_is_exact(none, backend@.cost_clamps(0, reward, half, false));
        counts_add_up(none, lead, backend@.cost_clamps(1, reward, half, false));
        count_is_exact(none, lead + backend@.cost_clamps(1, reward, half, false));
    }
    PairTarget {
        label: backend.label().to_owned(),
        prefill_ln,
        near_ln,
        far_ln,
        prefill_clamps: for_prefill.count,
        near_clamps: for_near.count,
        far_clamps: for_far.count,
    }
}

/// A backend for control-plane pairing, without anything of its own to measure.
#[derive(Debug)]
pub struct ScoredBackend {
    pub label: String,
    pub base_service_seconds: Real,
    pub inflight: usize,
}

/// The penalties that count for decoding: at most so many, the transfer last if there is room.
pub open spec fn counted_penalties(
    extra: Seq<Real>,
    same_label: bool,
    transfer_penalty: Real,
) -> Seq<Real> {
    let held = if extra.len() > MAX_SERVICE_BARRIERS {
        extra.take(MAX_SERVICE_BARRIERS as int)
    } else {
        extra
    };
    if !same_label && held.len() < MAX_SERVICE_BARRIERS {
        held.push(penalty_or_highest(larger(transfer_penalty, one())))
    } else {
        held
    }
}

/// Whether the transfer penalty is one that cannot be used, where it counts beside so many others.
pub open spec fn transfer_clamps(extra: nat, same_label: bool, transfer_penalty: Real) -> nat {
    if !same_label && extra < MAX_SERVICE_BARRIERS {
        unusable_penalty(larger(transfer_penalty, one()))
    } else {
        0
    }
}

/// The reward of a strength, as a list.
pub open spec fn reward_list(strength: Option<Real>) -> Seq<Real> {
    match warmth_reward(strength) {
        Some(r) => seq![r],
        None => Seq::empty(),
    }
}

fn reward_of(strength: Option<Real>) -> (r: Vec<Discount>)
    ensures
        rewards(r@) == reward_list(strength),
{
    let mut out: Vec<Discount> = Vec::new();
    if let Some(s) = strength {
        if let Some(d) = warmth_discount(s) {
            out.push(d);
        }
    }
    assert(rewards(out@) =~= reward_list(strength));
    out
}

impl ScoredBackend {
    /// An idle backend.
    pub fn new(label: &str, base_service_seconds: Real) -> (r: ScoredBackend)
        ensures
            r.label@ == label@,
            r.base_service_seconds == base_service_seconds,
            r.inflight == 0,
    {
        ScoredBackend { label: label.to_owned(), base_service_seconds, inflight: 0 }
    }

    pub fn inflight(&self) -> (r: usize)
        ensures
            r == self.inflight,
    {
        self.inflight
    }

    /// The cost with penalties and rewards.
    pub fn base_cost<F: Fn(Real) -> Real + Copy>(
        &self,
        extra_barriers: &[BarrierFactor],
        discounts: &[Discount],
        ln: F,
        events: &mut ClampEvents,
    ) -> (r: Cost)
        requires
            is_function(ln),
        ensures
            r.log() == service_log(
                ln,
                self.base_service_seconds,
                self.inflight as nat,
                penalties(extra_barriers@),
                rewards(discounts@),
            ),
            *final(events) == old(events).plus(unusable_time(self.base_service_seconds)),
    {
        let base: Real = self.base_service_seconds;
        service_cost(base, self.inflight, extra_barriers, discounts, ln, events)
    }

    /// The cost of prefill here.
    pub fn prefill_cost<F: Fn(Real) -> Real + Copy>(
        &self,
        strength: Option<Real>,
        ln: F,
        events: &mut ClampEvents,
    ) -> (r: Cost)
        requires
            is_function(ln),
        ensures
            *final(events) == old(events).plus(unusable_time(self.base_service_seconds)),
            r.log() == service_log(
                ln,
                self.base_service_seconds,
                self.inflight as nat,
                Seq::empty(),
                reward_list(strength),
            ),
    {
        let none: Vec<BarrierFactor> = Vec::new();
        assert(penalties(none@) =~= Seq::<Real>::empty());
        self.base_cost(none.as_slice(), reward_of(strength).as_slice(), ln, events)
    }

    /// The cost of decoding here after prefill on a label.
    pub fn decode_cost<F: Fn(Real) -> Real + Copy>(
        &self,
        strength: Option<Real>,
        prefill_label: &str,
        transfer_penalty: Real,
        extra_barriers: &[BarrierFactor],
        ln: F,
        events: &mut ClampEvents,
    ) -> (r: Cost)
        requires
            is_function(ln),
        ensures
            *final(events) == old(events).plus(
                transfer_clamps(
                    extra_barriers@.len(),
                    prefill_label@ == self.label@,
                    transfer_penalty,
                ) + unusable_time(self.base_service_seconds),
            ),
            r.log() == service_log(
                ln,
                self.base_service_seconds,
                self.inflight as nat,
                counted_penalties(
                    penalties(extra_barriers@),
                    prefill_label@ == self.label@,
                    transfer_penalty,
                ),
                reward_list(strength),
            ),
    {
        let n: usize = if extra_barriers.len() > MAX_SERVICE_BARRIERS {
            MAX_SERVICE_BARRIERS
        } else {
            extra_barriers.len()
        };
        let mut barriers: Vec<BarrierFactor> = Vec::new();
        for i in 0..n
            invariant
                n <= extra_barriers@.len(),
                barriers@ =~= extra_barriers@.take(i as int),
        {
            barriers.push(extra_barriers[i]);
        }
        if !same_text(prefill_label, self.label.as_str()) && n < MAX_SERVICE_BARRIERS {
            let penalty: Real = transfer_penalty.max_with(Real::from_bits(ONE_BITS));
            barriers.push(BarrierFactor::clamped(penalty, events));
        } else {
            proof {
                counts_add_up(*old(events), 0, 0);
            }
        }
        proof {
            counts_add_up(
                *old(events),
                transfer_clamps(
                    extra_barriers@.len(),
                    prefill_label@ == self.label@,
                    transfer_penalty,
                ),
                unusable_time(self.base_service_seconds),
            );
        }
        assert(penalties(barriers@) =~= counted_penalties(
            penalties(extra_barriers@),
            prefill_label@ == self.label@,
            transfer_penalty,
        ));
        self.base_cost(barriers.as_slice(), reward_of(strength).as_slice(), ln, events)
    }

    /// Prices the backend for pairing.
    pub fn pair_target<F: Fn(Real) -> Real + Copy>(
        &self,
        prefill_strength: Option<Real>,
        decode_strength: Option<Real>,
        transfer_penalty: Real,
        ln: F,
    ) -> (r: PairTarget)
        requires
            is_function(ln),
        ensures
            r@ == scored_target(*self, prefill_strength, decode_strength, transfer_penalty, ln),
    {
        let none: Vec<BarrierFactor> = Vec::new();
        assert(penalties(none@) =~= Seq::<Real>::empty());
        let mut for_prefill: ClampEvents = ClampEvents::new();
        let mut for_near: ClampEvents = ClampEvents::new();
        let mut for_far: ClampEvents = ClampEvents::new();
        let mut far: Vec<BarrierFactor> = Vec::new();
        let penalty: Real = transfer_penalty.max_with(Real::from_bits(ONE_BITS));
        far.push(BarrierFactor::clamped(penalty, &mut for_far));
        assert(penalties(far@) =~= seq![penalty_or_highest(larger(transfer_penalty, one()))]);
        let reward: Vec<Discount> = reward_of(decode_strength);
        let prefill_ln: Real = self.prefill_cost(prefill_strength, ln, &mut for_prefill).ln();
        let near_ln: Real = self.base_cost(
            none.as_slice(),
            reward.as_slice(),
            ln,
            &mut for_near,
        ).ln();
        let far_ln: Real = self.base_cost(
            far.as_slice(),
            reward.as_slice(),
            ln,
            &mut for_far,
        ).ln();
        proof {
            let none = ClampEvents { count: 0 };
            let lead = unusable_penalty(larger(transfer_penalty, one()));
            let time = unusable_time(self.base_service_seconds);
            count_is_exact(none, time);
            counts_add_up(none, lead, time);
            count_is_exact(none, lead + time);
        }
        PairTarget {
            label: self.label.clone(),
            prefill_ln,
            near_ln,
            far_ln,
            prefill_clamps: for_prefill.count,
            near_clamps: for_near.count,
            far_clamps: for_far.count,
        }
    }
}

/// The log-cost of prefill on a backend of the control plane.
pub open spec fn scored_prefill<F: Fn(Real) -> Real>(
    b: ScoredBackend,
    strength: Option<Real>,
    ln: F,
) -> Real {
    service_log(
        ln,
        b.base_service_seconds,
        b.inflight as nat,
        Seq::empty(),
        reward_list(strength),
    )
}

/// The log-cost of decoding on a backend of the control plane after prefill on a label.
pub open spec fn scored_decode<F: Fn(Real) -> Real>(
    b: ScoredBackend,
    strength: Option<Real>,
    prefill_label: Seq<char>,
    transfer_penalty: Real,
    ln: F,
) -> Real {
    service_log(
        ln,
        b.base_service_seconds,
        b.inflight as nat,
        counted_penalties(Seq::empty(), prefill_label == b.label@, transfer_penalty),
        reward_list(strength),
    )
}

/// A backend of the control plane as a target.
pub open spec fn scored_target<F: Fn(Real) -> Real>(
    b: ScoredBackend,
    prefill_strength: Option<Real>,
    decode_strength: Option<Real>,
    transfer_penalty: Real,
    ln: F,
) -> TargetView {
    TargetView {
        label: b.label@,
        prefill: scored_prefill(b, prefill_strength, ln),
        near: service_log(
            ln,
            b.base_service_seconds,
            b.inflight as nat,
            Seq::empty(),
            reward_list(decode_strength),
        ),
        far: service_log(
            ln,
            b.base_service_seconds,
            b.inflight as nat,
            seq![penalty_or_highest(larger(transfer_penalty, one()))],
            reward_list(decode_strength),
        ),
        prefill_clamps: unusable_time(b.base_service_seconds) as u64,
        near_clamps: unusable_time(b.base_service_seconds) as u64,
        far_clamps: (unusable_penalty(larger(transfer_penalty, one())) + unusable_time(
            b.base_service_seconds,
        )) as u64,
    }
}

/// A prefill pool as targets; `strengths` is the warmth of each backend, where it is known.
pub open spec fn scored_prefills<F: Fn(Real) -> Real>(
    pool: Seq<ScoredBackend>,
    strengths: Seq<Option<Real>>,
    transfer_penalty: Real,
    ln: F,
) -> Seq<TargetView> {
    Seq::new(
        pool.len(),
        |i: int| scored_target(pool[i], strengths[i], None, transfer_penalty, ln),
    )
}

/// A decode pool as targets; `strengths` is the warmth of each backend, where it is known.
pub open spec fn scored_decodes<F: Fn(Real) -> Real>(
    pool: Seq<ScoredBackend>,
    strengths: Seq<Option<Real>>,
    transfer_penalty: Real,
    ln: F,
) -> Seq<TargetView> {
    Seq::new(
        pool.len(),
        |i: int| scored_target(pool[i], None, strengths[i], transfer_penalty, ln),
    )
}

/// What pricing each backend of a control-plane pool for prefill counts.
pub open spec fn scored_prefill_counts(pool: Seq<ScoredBackend>) -> Seq<u64> {
    pool.map_values(|b: ScoredBackend| unusable_time(b.base_service_seconds) as u64)
}

/// What pricing each backend of a control-plane pool for decode after prefill on a label counts.
pub open spec fn scored_decode_counts(
    pool: Seq<ScoredBackend>,
    prefill_label: Seq<char>,
    transfer_penalty: Real,
) -> Seq<u64> {
    pool.map_values(
        |b: ScoredBackend|
            (transfer_clamps(0, prefill_label == b.label@, transfer_penalty) + unusable_time(
                b.base_service_seconds,
            )) as u64,
    )
}

/// The prefill log-costs of a control-plane pool.
pub open spec fn scored_prefill_logs<F: Fn(Real) -> Real>(
    pool: Seq<ScoredBackend>,
    strengths: Seq<Option<Real>>,
    ln: F,
) -> Seq<Real> {
    Seq::new(pool.len(), |j: int| scored_prefill(pool[j], strengths[j], ln))
}

/// The decode log-costs of a control-plane pool after prefill on a label.
pub open spec fn scored_decode_logs<F: Fn(Real) -> Real>(
    pool: Seq<ScoredBackend>,
    strengths: Seq<Option<Real>>,
    prefill_label: Seq<char>,
    transfer_penalty: Real,
    ln: F,
) -> Seq<Real> {
    Seq::new(
        pool.len(),
        |j: int| scored_decode(pool[j], strengths[j], prefill_label, transfer_penalty, ln),
    )
}

/// Picks the backend with the lowest prefill cost.
pub fn select_prefill<F: Fn(Real) -> Real + Copy>(
    candidates: &Vec<ScoredBackend>,
    strengths: &Vec<Option<Real>>,
    ln: F,
    events: &mut ClampEvents,
) -> (r: Option<usize>)
    requires
        is_function(ln),
        strengths@.len() == candidates@.len(),
    ensures
        match r {
            Some(i) => i < candidates@.len() && i == lowest(
                scored_prefill_logs(candidates@, strengths@, ln),
            ),
            None => candidates@.len() == 0,
        },
        *final(events) == old(events).plus(
            compared(
                scored_prefill_logs(candidates@, strengths@, ln),
                scored_prefill_counts(candidates@),
            ),
        ),
{
    let ghost all = scored_prefill_logs(candidates@, strengths@, ln);
    let ghost each = scored_prefill_counts(candidates@);
    let n: usize = candidates.len();
    let mut costs: Vec<Real> = Vec::new();
    let mut counts: Vec<u64> = Vec::new();
    for i in 0..n
        invariant
            is_function(ln),
            n == candidates@.len(),
            n == strengths@.len(),
            all == scored_prefill_logs(candidates@, strengths@, ln),
            each == scored_prefill_counts(candidates@),
            costs@ =~= all.take(i as int),
            counts@ =~= each.take(i as int),
    {
        let mut once: ClampEvents = ClampEvents::new();
        costs.push(candidates[i].prefill_cost(strengths[i], ln, &mut once).ln());
        proof {
            let b = candidates@[i as int];
            count_is_exact(ClampEvents { count: 0 }, unusable_time(b.base_service_seconds));
        }
        counts.push(once.count);
    }
    assert(costs@ =~= all);
    assert(counts@ =~= each);
    pick_lowest_counted(&costs, &counts, events)
}

/// Picks the backend with the lowest decode cost after prefill on `prefill`.
pub fn select_decode<F: Fn(Real) -> Real + Copy>(
    prefill: &ScoredBackend,
    candidates: &Vec<ScoredBackend>,
    strengths: &Vec<Option<Real>>,
    transfer_penalty: Real,
    ln: F,
    events: &mut ClampEvents,
) -> (r: Option<usize>)
    requires
        is_function(ln),
        strengths@.len() == candidates@.len(),
    ensures
        match r {
            Some(i) => i < candidates@.len() && i == lowest(
                scored_decode_logs(
                    candidates@,
                    strengths@,
                    prefill.label@,
                    transfer_penalty,
                    ln,
                ),
            ),
            None => candidates@.len() == 0,
        },
        *final(events) == old(events).plus(
            compared(
                scored_decode_logs(
                    candidates@,
                    strengths@,
                    prefill.label@,
                    transfer_penalty,
                    ln,
                ),
                scored_decode_counts(candidates@, prefill.label@, transfer_penalty),
            ),
        ),
{
    let ghost label = prefill.label@;
    let ghost all = scored_decode_logs(candidates@, strengths@, label, transfer_penalty, ln);
    let ghost each = scored_decode_counts(candidates@, label, transfer_penalty);
    let n: usize = candidates.len();
    let none: Vec<BarrierFactor> = Vec::new();
    assert(penalties(none@) =~= Seq::<Real>::empty());
    let mut costs: Vec<Real> = Vec::new();
    let mut counts: Vec<u64> = Vec::new();
    for i in 0..n
        invariant
            is_function(ln),
            n == candidates@.len(),
            n == strengths@.len(),
            none@.len() == 0,
            penalties(none@) == Seq::<Real>::empty(),
            label == prefill.label@,
            all == scored_decode_logs(candidates@, strengths@, label, transfer_penalty, ln),
            each == scored_decode_counts(candidates@, label, transfer_penalty),
            costs@ =~= all.take(i as int),
            counts@ =~= each.take(i as int),
    {
        let mut once: ClampEvents = ClampEvents::new();
        let cost: Cost = candidates[i].decode_cost(
            strengths[i],
            prefill.label.as_str(),
            transfer_penalty,
            none.as_slice(),
            ln,
            &mut once,
        );
        proof {
            let b = candidates@[i as int];
            count_is_exact(
                ClampEvents { count: 0 },
                transfer_clamps(0, label == b.label@, transfer_penalty) + unusable_time(
                    b.base_service_seconds,
                ),
            );
        }
        costs.push(cost.ln());
        counts.push(once.count);
    }
    assert(costs@ =~= all);
    assert(counts@ =~= each);
    pick_lowest_counted(&costs, &counts, events)
}

fn priced<F: Fn(Real) -> Real + Copy>(
    pool: &Vec<ScoredBackend>,
    strengths: &Vec<Option<Real>>,
    prefill: bool,
    transfer_penalty: Real,
    ln: F,
) -> (r: Vec<PairTarget>)
    requires
        is_function(ln),
        strengths@.len() == pool@.len(),
    ensures
        targets(r@) == if prefill {
            scored_prefills(pool@, strengths@, transfer_penalty, ln)
        } else {
            scored_decodes(pool@, strengths@, transfer_penalty, ln)
        },
{
    let ghost all = if prefill {
        scored_prefills(pool@, strengths@, transfer_penalty, ln)
    } else {
        scored_decodes(pool@, strengths@, transfer_penalty, ln)
    };
    let n: usize = pool.len();
    let mut out: Vec<PairTarget> = Vec::new();
    for i in 0..n
        invariant
            is_function(ln),
            n == pool@.len(),
            n == strengths@.len(),
            all == (if prefill {
                scored_prefills(pool@, strengths@, transfer_penalty, ln)
            } else {
                scored_decodes(pool@, strengths@, transfer_penalty, ln)
            }),
            targets(out@) =~= all.take(i as int),
    {
        let target: PairTarget = if prefill {
            pool[i].pair_target(strengths[i], None, transfer_penalty, ln)
        } else {
            pool[i].pair_target(None, strengths[i], transfer_penalty, ln)
        };
        let ghost before = out@;
        out.push(target);
        assert(targets(out@) =~= targets(before).push(target@));
    }
    assert(targets(out@) =~= all);
    out
}

/// Measures the regret of pairing two pools of the control plane greedily.
pub fn pairing_regret<F: Fn(Real) -> Real + Copy, G: Fn(Real) -> Real + Copy>(
    prefill_pool: &Vec<ScoredBackend>,
    prefill_strengths: &Vec<Option<Real>>,
    decode_pool: &Vec<ScoredBackend>,
    decode_strengths: &Vec<Option<Real>>,
    transfer_penalty: Real,
    ln: F,
    exp: G,
    events: &mut ClampEvents,
) -> (r: Real)
    requires
        is_function(ln),
        is_function(exp),
        prefill_strengths@.len() == prefill_pool@.len(),
        decode_strengths@.len() == decode_pool@.len(),
    ensures
        r == regret(
            scored_prefills(prefill_pool@, prefill_strengths@, transfer_penalty, ln),
            scored_decodes(decode_pool@, decode_strengths@, transfer_penalty, ln),
            exp,
        ),
        *final(events) == old(events).plus(
            regret_clamps(
                scored_prefills(prefill_pool@, prefill_strengths@, transfer_penalty, ln),
                scored_decodes(decode_pool@, decode_strengths@, transfer_penalty, ln),
            ),
        ),
{
    let pfs: Vec<PairTarget> = priced(prefill_pool, prefill_strengths, true, transfer_penalty, ln);
    let dcs: Vec<PairTarget> = priced(decode_pool, decode_strengths, false, transfer_penalty, ln);
    pairing_regret_targets(&pfs, &dcs, exp, events)
}

} // verus!
