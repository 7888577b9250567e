//! Backends: their load, their cost, and choosing among them.

use vstd::prelude::*;
use vstd::arithmetic::power2::{
    lemma2_to64, lemma_pow2_adds, lemma_pow2_pos, lemma_pow2_unfold, pow2,
};
use crate::binary64::{
    absolute, adding_never_lowers, clamped, count_is_monotone, difference, larger,
    lemma_count_below, lemma_nearest_bound, lemma_nearest_of_units, lemma_nearest_within,
    lemma_one_value, lemma_sum_error, lemma_sum_value, lemma_units_increase, lemma_value_order,
    of_nat, one, product, quotient, sum, sum_is_monotone, units, zero, Real, MAX_BITS, ONE_BITS,
};
use crate::elementary::{evaluate, is_function, value_at};
use crate::factors::{
    compose, composed_cost_is_exact, count_is_exact, counts_add_up, factor_logs, finite_or_highest,
    is_core, is_log_sized, is_logarithm, is_penalty, is_reward, lemma_dearer_factors,
    lemma_factor_logs, most_expensive, penalties, penalty_or_highest, rewards, total_log,
    unusable_is_never_cheaper, unusable_penalty, unusable_time, warmth_discount, warmth_factor,
    BarrierFactor, ClampEvents, Corrector, Cost, Discount, TimeCore,
};
use crate::params::{
    POOL_SHARE_FLOOR_BITS, ROUTING_OBSERVED_LATENCY_EWMA_ALPHA_BITS, ROUTING_TRANSFER_PENALTY_BITS,
};
use crate::rebalancer::HALF_BITS;
use crate::rounding::HIDDEN_BIT;
use crate::selection::{
    add_total, compared, lowest, lowest_is_minimal, lowest_number, pick_lowest,
    pick_lowest_counted, pick_lowest_number, total,
};
use crate::topology::{distance, rdma_transfer_ln, transfer_log, Place, TopologyId};

verus! {

/// The gap between one and the next double, as a bit pattern.
pub const EPSILON_BITS: u64 = 0x3cb0_0000_0000_0000;

/// A backend and its live load.
#[derive(Debug)]
pub struct Backend {
    pub label: String,
    topology: TopologyId,
    base_service_seconds: Real,
    /// Moving average of measured prefill times; a pattern of zero means none.
    observed: Real,
    inflight: usize,
}

/// A backend, as the contracts see it.
pub struct BackendState {
    pub label: Seq<char>,
    pub place: Place,
    pub base: Real,
    pub observed: Real,
    pub inflight: usize,
}

impl BackendState {
    /// The claimed service time; an unusable claim counts as the longest.
    pub open spec fn claimed(self) -> Real {
        if is_core(self.base) {
            self.base
        } else {
            most_expensive()
        }
    }

    /// The longer of the claimed and the measured service time: a claim cannot undercut what was
    /// measured.
    pub open spec fn effective(self) -> Real {
        if self.observed.bits != 0 && self.observed.finite() && self.claimed().below(
            self.observed,
        ) {
            self.observed
        } else {
            self.claimed()
        }
    }

    /// The time whose logarithm enters the cost: the claim itself where it is in effect.
    pub open spec fn priced(self) -> Real {
        if absolute(difference(self.effective(), self.base)).below(
            Real { bits: EPSILON_BITS },
        ) {
            self.claimed()
        } else if is_core(self.effective()) {
            self.effective()
        } else {
            most_expensive()
        }
    }

    /// Requests in the queue and the one to come.
    pub open spec fn queue(self) -> Real {
        sum(one(), of_nat(self.inflight as nat))
    }

    /// The moving average after one more measurement; an unusable one is ignored.
    pub open spec fn after_measurement(self, secs: Real) -> BackendState {
        if !is_core(secs) {
            self
        } else if self.observed.bits == 0 {
            BackendState { observed: secs, ..self }
        } else {
            let alpha = Real { bits: ROUTING_OBSERVED_LATENCY_EWMA_ALPHA_BITS };
            BackendState {
                observed: sum(
                    product(alpha, secs),
                    product(difference(one(), alpha), self.observed),
                ),
                ..self
            }
        }
    }

    /// The log-cost of a backend that has nothing but its queue.
    pub open spec fn plain_log<F: Fn(Real) -> Real>(self, ln: F, pi: Real, prefill: bool) -> Real {
        sum(
            sum(value_at(ln, self.priced()), value_at(ln, scaled(one(), pi, prefill))),
            value_at(ln, self.queue()),
        )
    }

    /// The log-cost of a backend with penalties and a reward.
    pub open spec fn cost_log<F: Fn(Real) -> Real>(
        self,
        ln: F,
        extra: Seq<Real>,
        reward: Option<Real>,
        pi: Real,
        prefill: bool,
    ) -> Real {
        if extra.len() == 0 && reward is None {
            finite_or_highest(self.plain_log(ln, pi, prefill))
        } else {
            service_log(
                ln,
                scaled(self.effective(), pi, prefill),
                self.inflight as nat,
                extra,
                match reward {
                    Some(r) => seq![r],
                    None => Seq::empty(),
                },
            )
        }
    }
}

impl BackendState {
    /// How many signals cannot be used in a cost with so many penalties and a reward. By its queue
    /// alone a backend is priced without any that could fail.
    pub open spec fn cost_clamps(
        self,
        extra: nat,
        reward: Option<Real>,
        pi: Real,
        prefill: bool,
    ) -> nat {
        if extra == 0 && reward is None {
            0
        } else {
            unusable_time(scaled(self.effective(), pi, prefill))
        }
    }
}

/// The log-cost of a service: its time, its queue, further penalties and rewards.
pub open spec fn service_log<F: Fn(Real) -> Real>(
    ln: F,
    core: Real,
    inflight: nat,
    extra: Seq<Real>,
    discounts: Seq<Real>,
) -> Real {
    finite_or_highest(
        total_log(
            factor_logs(
                ln,
                if is_core(core) {
                    core
                } else {
                    most_expensive()
                },
                seq![penalty_or_highest(sum(one(), of_nat(inflight)))] + extra,
                discounts,
                one(),
            ),
        ),
    )
}

/// The cost of a service: its time, its queue, further penalties and rewards.
pub fn service_cost<F: Fn(Real) -> Real + Copy>(
    base_seconds: Real,
    inflight: usize,
    extra: &[BarrierFactor],
    discounts: &[Discount],
    ln: F,
    events: &mut ClampEvents,
) -> (r: Cost)
    requires
        is_function(ln),
    ensures
        *final(events) == old(events).plus(unusable_time(base_seconds)),
        r.log() == service_log(
            ln,
            base_seconds,
            inflight as nat,
            penalties(extra@),
            rewards(discounts@),
        ),
{
    let mut barriers: Vec<BarrierFactor> = Vec::new();
    proof {
        lemma_queue(inflight as nat, inflight as nat);
    }
    let queue: BarrierFactor = BarrierFactor::new(
        Real::from_bits(ONE_BITS).plus(Real::from_u64(inflight as u64)),
    ).unwrap();
    barriers.push(queue);
    let ghost first = barriers@;
    for i in 0..extra.len()
        invariant
            barriers@ =~= first + extra@.take(i as int),
    {
        barriers.push(extra[i]);
    }
    assert(barriers@ =~= first + extra@);
    assert(penalties(barriers@) =~= seq![
        penalty_or_highest(sum(one(), of_nat(inflight as nat))),
    ] + penalties(extra@));
    compose(
        TimeCore::clamped(base_seconds, events),
        barriers.as_slice(),
        discounts,
        Corrector::identity(),
        ln,
    )
}

/// A busier service is never cheaper, with the same time, penalties and rewards.
pub proof fn busier_is_never_cheaper<F: Fn(Real) -> Real>(
    ln: F,
    core: Real,
    fewer: nat,
    more: nat,
    extra: Seq<Real>,
    discounts: Seq<Real>,
)
    requires
        is_logarithm(ln),
        fewer <= more <= u64::MAX,
        forall|i: int| 0 <= i < extra.len() ==> is_penalty(#[trigger] extra[i]),
        forall|i: int| 0 <= i < discounts.len() ==> is_reward(#[trigger] discounts[i]),
        1 + extra.len() + discounts.len() < HIDDEN_BIT,
    ensures
        service_log(ln, core, fewer, extra, discounts).at_most(
            service_log(ln, core, more, extra, discounts),
        ),
{
    let time = if is_core(core) {
        core
    } else {
        most_expensive()
    };
    lemma_value_order(zero(), most_expensive());
    slower_or_busier(ln, time, time, fewer, more, extra, discounts);
}

/// A slower service is never cheaper, and one whose time is unusable is the slowest.
pub proof fn slower_is_never_cheaper<F: Fn(Real) -> Real>(
    ln: F,
    core: Real,
    slower: Real,
    inflight: nat,
    extra: Seq<Real>,
    discounts: Seq<Real>,
)
    requires
        is_logarithm(ln),
        inflight <= u64::MAX,
        is_core(core),
        is_core(slower) ==> core.at_most(slower),
        forall|i: int| 0 <= i < extra.len() ==> is_penalty(#[trigger] extra[i]),
        forall|i: int| 0 <= i < discounts.len() ==> is_reward(#[trigger] discounts[i]),
        1 + extra.len() + discounts.len() < HIDDEN_BIT,
    ensures
        service_log(ln, core, inflight, extra, discounts).at_most(
            service_log(ln, slower, inflight, extra, discounts),
        ),
{
    unusable_is_never_cheaper(core);
    let time = if is_core(slower) {
        slower
    } else {
        most_expensive()
    };
    slower_or_busier(ln, core, time, inflight, inflight, extra, discounts);
}

/// The queue as a penalty.
pub proof fn lemma_queue(fewer: nat, more: nat)
    requires
        fewer <= more <= u64::MAX,
    ensures
        is_penalty(sum(one(), of_nat(fewer))),
        is_penalty(sum(one(), of_nat(more))),
        sum(one(), of_nat(fewer)).at_most(sum(one(), of_nat(more))),
{
    count_is_monotone(fewer, more);
    count_is_monotone(0, fewer);
    count_is_monotone(0, more);
    lemma_one_value();
    lemma2_to64();
    lemma_pow2_adds(64, 1074);
    lemma_pow2_pos(1074);
    assert(units(0) == 0) by (nonlinear_arith);
    adding_never_lowers(one(), of_nat(fewer));
    adding_never_lowers(one(), of_nat(more));
    sum_is_monotone(one(), one(), of_nat(fewer), of_nat(more));
    lemma_queue_finite(fewer);
    lemma_queue_finite(more);
}

proof fn lemma_queue_finite(n: nat)
    requires
        n <= u64::MAX,
    ensures
        sum(one(), of_nat(n)).finite(),
{
    lemma2_to64();
    lemma_count_below(n, 64);
    lemma_one_value();
    lemma_pow2_adds(64, 1074);
    lemma_pow2_pos(1074);
    let v = one().value() + of_nat(n).value();
    assert(v <= 2 * pow2(1138)) by {
        vstd::arithmetic::power2::lemma_pow2_strictly_increases(1074, 1138);
    }
    lemma_nearest_within(v as nat, 2, 1138);
}

proof fn slower_or_busier<F: Fn(Real) -> Real>(
    ln: F,
    core: Real,
    slower: Real,
    fewer: nat,
    more: nat,
    extra: Seq<Real>,
    discounts: Seq<Real>,
)
    requires
        is_logarithm(ln),
        is_core(core),
        is_core(slower),
        core.at_most(slower),
        fewer <= more <= u64::MAX,
        forall|i: int| 0 <= i < extra.len() ==> is_penalty(#[trigger] extra[i]),
        forall|i: int| 0 <= i < discounts.len() ==> is_reward(#[trigger] discounts[i]),
        1 + extra.len() + discounts.len() < HIDDEN_BIT,
    ensures
        service_log(ln, core, fewer, extra, discounts).at_most(
            service_log(ln, slower, more, extra, discounts),
        ),
{
    lemma_queue(fewer, more);
    let low = seq![sum(one(), of_nat(fewer))] + extra;
    let high = seq![sum(one(), of_nat(more))] + extra;
    assert forall|i: int| 0 <= i < low.len() implies is_penalty(#[trigger] low[i]) && is_penalty(
        high[i],
    ) && low[i].at_most(high[i]) by {
        if i > 0 {
            assert(is_penalty(extra[i - 1]));
        }
    }
    assert forall|i: int| 0 <= i < discounts.len() implies (#[trigger] discounts[i]).at_most(
        discounts[i],
    ) by {
        assert(is_reward(discounts[i]));
    }
    lemma_dearer_factors(ln, core, slower, low, high, discounts, discounts);
    lemma_factor_logs(ln, core, low, discounts);
    lemma_factor_logs(ln, slower, high, discounts);
    composed_cost_is_exact(factor_logs(ln, core, low, discounts, one()));
    composed_cost_is_exact(factor_logs(ln, slower, high, discounts, one()));
}

/// The share of capacity that a pool has.
pub open spec fn pool_share(pi: Real, prefill: bool) -> Real {
    clamped(
        if prefill {
            pi
        } else {
            difference(one(), pi)
        },
        Real { bits: POOL_SHARE_FLOOR_BITS },
        one(),
    )
}

/// A service time scaled by the share of its pool: with equal shares it stays as it is, in a larger
/// pool it counts as shorter.
pub open spec fn scaled(base: Real, pi: Real, prefill: bool) -> Real {
    product(base, quotient(Real { bits: HALF_BITS }, pool_share(pi, prefill)))
}

/// Scales a service time by the share of its pool.
pub fn pool_core_scale(base: Real, pi: Real, prefill: bool) -> (r: Real)
    ensures
        r == scaled(base, pi, prefill),
{
    let full: Real = Real::from_bits(ONE_BITS);
    let floor: Real = Real::from_bits(POOL_SHARE_FLOOR_BITS);
    proof {
        lemma_value_order(full, floor);
    }
    let part: Real = if prefill {
        pi
    } else {
        full.minus(pi)
    };
    base.times(Real::from_bits(HALF_BITS).over(part.clamp_to(floor, full)))
}

/// The reward for a warmth strength, if it is a hit.
pub open spec fn warmth_reward(strength: Option<Real>) -> Option<Real> {
    match strength {
        Some(s) => if s.finite() && zero().below(s) {
            Some(warmth_factor(s))
        } else {
            None
        },
        None => None,
    }
}

impl View for Backend {
    type V = BackendState;

    closed spec fn view(&self) -> BackendState {
        BackendState {
            label: self.label@,
            place: self.topology@,
            base: self.base_service_seconds,
            observed: self.observed,
            inflight: self.inflight,
        }
    }
}

impl Backend {
    /// An idle backend without measurements, placed nowhere in particular.
    pub fn new(label: &str, base_service_seconds: Real) -> (r: Backend)
        ensures
            r@ == (BackendState {
                label: label@,
                place: crate::topology::nowhere(),
                base: base_service_seconds,
                observed: zero(),
                inflight: 0,
            }),
    {
        Backend::new_with_topology(label, base_service_seconds, TopologyId::default())
    }

    /// An idle backend without measurements.
    pub fn new_with_topology(label: &str, base_service_seconds: Real, topology: TopologyId) -> (r:
        Backend)
        ensures
            r@ == (BackendState {
                label: label@,
                place: topology@,
                base: base_service_seconds,
                observed: zero(),
                inflight: 0,
            }),
    {
        Backend {
            label: label.to_owned(),
            topology,
            base_service_seconds,
            observed: Real::from_bits(0),
            inflight: 0,
        }
    }

    #[must_use]
    pub fn topology(&self) -> (r: &TopologyId)
        ensures
            r@ == self@.place,
    {
        &self.topology
    }

    /// The label.
    pub fn label(&self) -> (r: &str)
        ensures
            r@ == self@.label,
    {
        self.label.as_str()
    }

    pub fn inflight(&self) -> (r: usize)
        ensures
            r == self@.inflight,
    {
        self.inflight
    }

    /// One request more; after the largest count it starts over.
    pub fn incr_inflight(&mut self)
        ensures
            final(self)@ == (BackendState {
                inflight: if old(self)@.inflight == usize::MAX {
                    0
                } else {
                    (old(self)@.inflight + 1) as usize
                },
                ..old(self)@
            }),
    {
        self.inflight = self.inflight.wrapping_add(1);
    }

    /// One request less; below zero it starts over.
    pub fn decr_inflight(&mut self)
        ensures
            final(self)@ == (BackendState {
                inflight: if old(self)@.inflight == 0 {
                    usize::MAX
                } else {
                    (old(self)@.inflight - 1) as usize
                },
                ..old(self)@
            }),
    {
        self.inflight = self.inflight.wrapping_sub(1);
    }

    /// Folds a measured service time into the moving average.
    pub fn note_observed_seconds(&mut self, secs: Real)
        ensures
            final(self)@ == old(self)@.after_measurement(secs),
    {
        if !secs.is_finite() || secs.le(Real::from_bits(0)) {
            return;
        }
        if self.observed.to_bits() == 0 {
            self.observed = secs;
        } else {
            let alpha: Real = Real::from_bits(ROUTING_OBSERVED_LATENCY_EWMA_ALPHA_BITS);
            let rest: Real = Real::from_bits(ONE_BITS).minus(alpha);
            self.observed = alpha.times(secs).plus(rest.times(self.observed));
        }
    }

    fn claimed_seconds(&self) -> (r: Real)
        ensures
            r == self@.claimed(),
    {
        if self.base_service_seconds.is_finite() && Real::from_bits(0).lt(
            self.base_service_seconds,
        ) {
            self.base_service_seconds
        } else {
            Real::from_bits(MAX_BITS)
        }
    }

    /// The longer of the claimed and the measured service time.
    pub fn effective_base_seconds(&self) -> (r: Real)
        ensures
            r == self@.effective(),
    {
        let claimed: Real = self.claimed_seconds();
        if self.observed.to_bits() != 0 && self.observed.is_finite() && claimed.lt(self.observed) {
            self.observed
        } else {
            claimed
        }
    }

    fn priced_seconds(&self) -> (r: Real)
        ensures
            r == self@.priced(),
    {
        let effective: Real = self.effective_base_seconds();
        if effective.minus(self.base_service_seconds).abs_value().lt(
            Real::from_bits(EPSILON_BITS),
        ) {
            self.claimed_seconds()
        } else if effective.is_finite() && Real::from_bits(0).lt(effective) {
            effective
        } else {
            Real::from_bits(MAX_BITS)
        }
    }

    fn queue_length(&self) -> (r: Real)
        ensures
            r == self@.queue(),
    {
        Real::from_bits(ONE_BITS).plus(Real::from_u64(self.inflight as u64))
    }

    /// The cost of the backend with its queue; `ln` is the natural logarithm.
    pub fn cost<F: Fn(Real) -> Real + Copy>(&self, ln: F) -> (r: Cost)
        requires
            is_function(ln),
        ensures
            r.log() == finite_or_highest(
                sum(value_at(ln, self@.priced()), value_at(ln, self@.queue())),
            ),
    {
        Cost::from_ln(
            evaluate(ln, self.priced_seconds()).plus(evaluate(ln, self.queue_length())),
        )
    }

    /// The log-cost of the backend with its queue, scaled by the share of its pool.
    pub fn selection_ln<F: Fn(Real) -> Real + Copy>(
        &self,
        pool_pi: Real,
        prefill: bool,
        ln: F,
    ) -> (r: Real)
        requires
            is_function(ln),
        ensures
            r == self@.plain_log(ln, pool_pi, prefill),
    {
        evaluate(ln, self.priced_seconds()).plus(
            evaluate(ln, pool_core_scale(Real::from_bits(ONE_BITS), pool_pi, prefill)),
        ).plus(evaluate(ln, self.queue_length()))
    }

    /// The cost with penalties and a warmth reward. `strength` is the warmth that the request may
    /// use on this backend: under cache-domain isolation only that of its own domain.
    pub fn cost_with_isolation_pi<F: Fn(Real) -> Real + Copy>(
        &self,
        extra: &[BarrierFactor],
        strength: Option<Real>,
        decode_pool: bool,
        pool_pi: Real,
        ln: F,
        events: &mut ClampEvents,
    ) -> (r: Cost)
        requires
            is_function(ln),
        ensures
            r.log() == self@.cost_log(
                ln,
                penalties(extra@),
                warmth_reward(strength),
                pool_pi,
                !decode_pool,
            ),
            *final(events) == old(events).plus(
                self@.cost_clamps(extra@.len(), warmth_reward(strength), pool_pi, !decode_pool),
            ),
    {
        let discount: Option<Discount> = match strength {
            Some(s) => warmth_discount(s),
            None => None,
        };
        let mut discounts: Vec<Discount> = Vec::new();
        match discount {
            Some(d) => {
                discounts.push(d);
                assert(rewards(discounts@) =~= seq![d.factor()]);
            },
            None => {
                assert(rewards(discounts@) =~= Seq::<Real>::empty());
                if extra.len() == 0 {
                    proof {
                        counts_add_up(*old(events), 0, 0);
                    }
                    return Cost::from_ln(self.selection_ln(pool_pi, !decode_pool, ln));
                }
            },
        }
        let scaled: Real = pool_core_scale(self.effective_base_seconds(), pool_pi, !decode_pool);
        service_cost(scaled, self.inflight, extra, discounts.as_slice(), ln, events)
    }

    /// The cost with penalties and a warmth reward, for a given pool share.
    pub fn cost_with_warmth_pi<F: Fn(Real) -> Real + Copy>(
        &self,
        extra: &[BarrierFactor],
        strength: Option<Real>,
        decode_pool: bool,
        pool_pi: Real,
        ln: F,
        events: &mut ClampEvents,
    ) -> (r: Cost)
        requires
            is_function(ln),
        ensures
            r.log() == self@.cost_log(
                ln,
                penalties(extra@),
                warmth_reward(strength),
                pool_pi,
                !decode_pool,
            ),
            *final(events) == old(events).plus(
                self@.cost_clamps(extra@.len(), warmth_reward(strength), pool_pi, !decode_pool),
            ),
    {
        self.cost_with_isolation_pi(extra, strength, decode_pool, pool_pi, ln, events)
    }

    /// The cost with penalties and a warmth reward, for equal pool shares.
    pub fn cost_with_warmth<F: Fn(Real) -> Real + Copy>(
        &self,
        extra: &[BarrierFactor],
        strength: Option<Real>,
        decode_pool: bool,
        ln: F,
        events: &mut ClampEvents,
    ) -> (r: Cost)
        requires
            is_function(ln),
        ensures
            r.log() == self@.cost_log(
                ln,
                penalties(extra@),
                warmth_reward(strength),
                Real { bits: HALF_BITS },
                !decode_pool,
            ),
            *final(events) == old(events).plus(
                self@.cost_clamps(
                    extra@.len(),
                    warmth_reward(strength),
                    Real { bits: HALF_BITS },
                    !decode_pool,
                ),
            ),
    {
        let half: Real = Real::from_bits(HALF_BITS);
        self.cost_with_warmth_pi(extra, strength, decode_pool, half, ln, events)
    }

    /// The cost with penalties, for a given pool share.
    pub fn cost_with_barriers_pi<F: Fn(Real) -> Real + Copy>(
        &self,
        extra: &[BarrierFactor],
        pool_pi: Real,
        prefill: bool,
        ln: F,
        events: &mut ClampEvents,
    ) -> (r: Cost)
        requires
            is_function(ln),
        ensures
            r.log() == self@.cost_log(ln, penalties(extra@), None, pool_pi, prefill),
            *final(events) == old(events).plus(
                self@.cost_clamps(extra@.len(), None, pool_pi, prefill),
            ),
    {
        self.cost_with_isolation_pi(extra, None, !prefill, pool_pi, ln, events)
    }

    /// The cost with penalties, for equal pool shares.
    pub fn cost_with_barriers<F: Fn(Real) -> Real + Copy>(
        &self,
        extra: &[BarrierFactor],
        ln: F,
        events: &mut ClampEvents,
    ) -> (r: Cost)
        requires
            is_function(ln),
        ensures
            r.log() == self@.cost_log(
                ln,
                penalties(extra@),
                None,
                Real { bits: HALF_BITS },
                true,
            ),
            *final(events) == old(events).plus(
                self@.cost_clamps(extra@.len(), None, Real { bits: HALF_BITS }, true),
            ),
    {
        self.cost_with_barriers_pi(extra, Real::from_bits(HALF_BITS), true, ln, events)
    }
}

/// A backend never counts as faster than it was measured, nor as faster than it claims.
pub proof fn measured_time_is_never_undercut(b: BackendState)
    ensures
        b.claimed().at_most(b.effective()),
        b.observed.bits != 0 && b.observed.finite() ==> b.observed.at_most(b.effective()),
{
    if !is_core(b.base) {
        assert(most_expensive().finite());
    }
}

/// The backends behind a pool.
pub open spec fn pool_view(pool: Seq<Backend>) -> Seq<BackendState> {
    pool.map_values(|b: Backend| b@)
}

/// The log-costs of a pool by queue, share and penalties.
pub open spec fn barrier_logs<F: Fn(Real) -> Real>(
    pool: Seq<BackendState>,
    ln: F,
    extra: Seq<Real>,
    pi: Real,
    prefill: bool,
) -> Seq<Real> {
    pool.map_values(
        |b: BackendState|
            if extra.len() == 0 {
                b.plain_log(ln, pi, prefill)
            } else {
                b.cost_log(ln, extra, None, pi, prefill)
            },
    )
}

/// The log-costs of a pool with a warmth strength for each backend.
pub open spec fn warmth_logs<F: Fn(Real) -> Real>(
    pool: Seq<BackendState>,
    ln: F,
    extra: Seq<Real>,
    strengths: Seq<Option<Real>>,
    pi: Real,
    prefill: bool,
) -> Seq<Real> {
    Seq::new(
        pool.len(),
        |i: int| pool[i].cost_log(ln, extra, warmth_reward(strengths[i]), pi, prefill),
    )
}

/// What pricing each backend of a pool under so many penalties counts.
pub open spec fn barrier_clamps(
    pool: Seq<BackendState>,
    extra: nat,
    pi: Real,
    prefill: bool,
) -> Seq<u64> {
    pool.map_values(|b: BackendState| b.cost_clamps(extra, None, pi, prefill) as u64)
}

/// What pricing each backend of a pool counts when warmth counts.
pub open spec fn warmth_clamps(
    pool: Seq<BackendState>,
    extra: nat,
    strengths: Seq<Option<Real>>,
    pi: Real,
    prefill: bool,
) -> Seq<u64> {
    Seq::new(
        pool.len(),
        |i: int| pool[i].cost_clamps(extra, warmth_reward(strengths[i]), pi, prefill) as u64,
    )
}

/// The choice among some costs, if there is any.
pub open spec fn choice(costs: Seq<Real>) -> Option<int> {
    if costs.len() == 0 {
        None
    } else {
        Some(lowest(costs))
    }
}

/// The index of a choice.
pub open spec fn chosen(r: Option<usize>) -> Option<int> {
    match r {
        Some(i) => Some(i as int),
        None => None,
    }
}

/// Picks the backend with the lowest cost by queue and share alone.
pub fn select_by_queue<F: Fn(Real) -> Real + Copy>(
    candidates: &Vec<Backend>,
    pool_pi: Real,
    prefill: bool,
    ln: F,
) -> (r: Option<usize>)
    requires
        is_function(ln),
    ensures
        chosen(r) == choice(
            barrier_logs(pool_view(candidates@), ln, Seq::empty(), pool_pi, prefill),
        ),
        r matches Some(i) ==> i < candidates@.len(),
{
    let ghost all = barrier_logs(pool_view(candidates@), ln, Seq::empty(), pool_pi, prefill);
    let n: usize = candidates.len();
    let mut costs: Vec<Real> = Vec::new();
    for i in 0..n
        invariant
            is_function(ln),
            n == candidates@.len(),
            all == barrier_logs(pool_view(candidates@), ln, Seq::empty(), pool_pi, prefill),
            costs@ =~= all.take(i as int),
    {
        costs.push(candidates[i].selection_ln(pool_pi, prefill, ln));
    }
    assert(costs@ =~= all);
    pick_lowest(&costs)
}

/// What is counted while a backend is chosen under penalties; without any, nothing is.
pub open spec fn barrier_choice_clamps<F: Fn(Real) -> Real>(
    pool: Seq<BackendState>,
    ln: F,
    extra: Seq<Real>,
    pi: Real,
    prefill: bool,
) -> nat {
    if extra.len() == 0 {
        0
    } else {
        compared(
            barrier_logs(pool, ln, extra, pi, prefill),
            barrier_clamps(pool, extra.len(), pi, prefill),
        )
    }
}

/// Picks the backend with the lowest cost under penalties.
pub fn select_with_barriers_pi<F: Fn(Real) -> Real + Copy>(
    candidates: &Vec<Backend>,
    extra: &[BarrierFactor],
    pool_pi: Real,
    prefill: bool,
    ln: F,
    events: &mut ClampEvents,
) -> (r: Option<usize>)
    requires
        is_function(ln),
    ensures
        chosen(r) == choice(
            barrier_logs(pool_view(candidates@), ln, penalties(extra@), pool_pi, prefill),
        ),
        r matches Some(i) ==> i < candidates@.len(),
        *final(events) == old(events).plus(
            barrier_choice_clamps(
                pool_view(candidates@),
                ln,
                penalties(extra@),
                pool_pi,
                prefill,
            ),
        ),
{
    if extra.len() == 0 {
        proof {
            counts_add_up(*old(events), 0, 0);
            assert(penalties(extra@) =~= Seq::<Real>::empty());
        }
        return select_by_queue(candidates, pool_pi, prefill, ln);
    }
    let ghost pool = pool_view(candidates@);
    let ghost all = barrier_logs(pool, ln, penalties(extra@), pool_pi, prefill);
    let ghost each = barrier_clamps(pool, extra@.len(), pool_pi, prefill);
    let n: usize = candidates.len();
    let mut costs: Vec<Real> = Vec::new();
    let mut counts: Vec<u64> = Vec::new();
    for i in 0..n
        invariant
            is_function(ln),
            extra@.len() > 0,
            n == candidates@.len(),
            pool == pool_view(candidates@),
            all == barrier_logs(pool, ln, penalties(extra@), pool_pi, prefill),
            each == barrier_clamps(pool, extra@.len(), pool_pi, prefill),
            costs@ =~= all.take(i as int),
            counts@ =~= each.take(i as int),
    {
        let mut once: ClampEvents = ClampEvents::new();
        costs.push(
            candidates[i].cost_with_barriers_pi(extra, pool_pi, prefill, ln, &mut once).ln(),
        );
        proof {
            let b = candidates@[i as int]@;
            count_is_exact(
                ClampEvents { count: 0 },
                b.cost_clamps(extra@.len(), None, pool_pi, prefill),
            );
        }
        counts.push(once.count);
    }
    assert(costs@ =~= all);
    assert(counts@ =~= each);
    pick_lowest_counted(&costs, &counts, events)
}

/// Picks the backend with the lowest cost under penalties, for equal pool shares.
pub fn select_with_barriers<F: Fn(Real) -> Real + Copy>(
    candidates: &Vec<Backend>,
    extra: &[BarrierFactor],
    ln: F,
    events: &mut ClampEvents,
) -> (r: Option<usize>)
    requires
        is_function(ln),
    ensures
        chosen(r) == choice(
            barrier_logs(
                pool_view(candidates@),
                ln,
                penalties(extra@),
                Real { bits: HALF_BITS },
                true,
            ),
        ),
        r matches Some(i) ==> i < candidates@.len(),
        *final(events) == old(events).plus(
            barrier_choice_clamps(
                pool_view(candidates@),
                ln,
                penalties(extra@),
                Real { bits: HALF_BITS },
                true,
            ),
        ),
{
    select_with_barriers_pi(candidates, extra, Real::from_bits(HALF_BITS), true, ln, events)
}

/// Picks the backend with the lowest cost.
pub fn select<F: Fn(Real) -> Real + Copy>(candidates: &Vec<Backend>, ln: F) -> (r: Option<usize>)
    requires
        is_function(ln),
    ensures
        chosen(r) == choice(
            barrier_logs(
                pool_view(candidates@),
                ln,
                Seq::empty(),
                Real { bits: HALF_BITS },
                true,
            ),
        ),
        r matches Some(i) ==> i < candidates@.len(),
{
    select_by_queue(candidates, Real::from_bits(HALF_BITS), true, ln)
}

/// At equal shares a service time is not scaled.
proof fn lemma_equal_shares()
    ensures
        scaled(one(), Real { bits: HALF_BITS }, true) == one(),
{
    let half = Real { bits: HALF_BITS };
    let floor = Real { bits: POOL_SHARE_FLOOR_BITS };
    lemma_one_value();
    lemma_value_order(half, floor);
    lemma_value_order(one(), half);
    assert(pool_share(half, true) == half);
    let k = pow2(1074);
    let u = units(HALF_BITS);
    lemma_pow2_pos(1074);
    assert(units(0) == 0) by (nonlinear_arith);
    lemma_units_increase(0, HALF_BITS);
    assert(u * k == k * u) by (nonlinear_arith);
    lemma_nearest_bound(u * k, u, ONE_BITS);
    assert(quotient(half, half) == one());
    lemma_nearest_bound(k * k, k, ONE_BITS);
}

/// The log-cost of a backend at equal shares is finite, and no negative zero.
proof fn lemma_plain_log<F: Fn(Real) -> Real>(b: BackendState, ln: F)
    requires
        is_logarithm(ln),
    ensures
        b.plain_log(ln, Real { bits: HALF_BITS }, true).finite(),
        b.plain_log(ln, Real { bits: HALF_BITS }, true).negative() ==> b.plain_log(
            ln,
            Real { bits: HALF_BITS },
            true,
        ).value() < 0,
{
    lemma_equal_shares();
    lemma_value_order(zero(), most_expensive());
    lemma_value_order(zero(), one());
    assert(units(0) == 0) by (nonlinear_arith);
    let x = value_at(ln, b.priced());
    assert(is_core(b.priced()));
    assert(is_log_sized(x));
    let a = sum(x, zero());
    lemma_sum_value(x, zero());
    lemma_nearest_of_units(x.magnitude());
    assert(a.value() == x.value() && a.finite());
    assert(a.negative() ==> a.value() < 0) by {
        lemma_value_order(a, zero());
    }
    lemma_queue(b.inflight as nat, b.inflight as nat);
    let q = value_at(ln, b.queue());
    lemma_value_order(zero(), b.queue());
    assert(is_log_sized(q));
    lemma_pow2_unfold(1085);
    vstd::arithmetic::power2::lemma_pow2_strictly_increases(1085, 1100);
    lemma_sum_error(a, q, 1100);
    let v = a.value() + q.value();
    lemma_sum_value(a, q);
    if v < 0 {
        vstd::arithmetic::power2::lemma2_to64();
        assert(units(1) == 1) by (nonlinear_arith)
            requires
                units(1) == 1 * pow2(0),
                pow2(0) == 1,
        ;
        lemma_nearest_bound((-v) as nat, 1, 1);
        lemma_value_order(sum(a, q), zero());
    } else if v == 0 {
        assert(q.negative() ==> q.value() <= 0);
    }
}

/// Without a negative zero the order of bit patterns is the order of values.
proof fn lemma_rank_order(a: Real, b: Real)
    requires
        a.finite(),
        b.finite(),
        a.negative() ==> a.value() < 0,
        b.negative() ==> b.value() < 0,
    ensures
        a.rank() <= b.rank() ==> a.at_most(b),
        a.rank() < b.rank() ==> a.below(b),
{
    lemma_value_order(a, b);
    lemma_value_order(b, a);
}

/// The backend that is chosen has the least cost of all, as a caller reads it, and is the first
/// with that cost.
pub proof fn selected_is_cheapest<F: Fn(Real) -> Real>(pool: Seq<BackendState>, ln: F)
    requires
        is_logarithm(ln),
        pool.len() > 0,
    ensures
        ({
            let half = Real { bits: HALF_BITS };
            let i = lowest(barrier_logs(pool, ln, Seq::empty(), half, true));
            let least = pool[i].cost_log(ln, Seq::empty(), None, half, true);
            &&& 0 <= i < pool.len()
            &&& forall|j: int|
                0 <= j < pool.len() ==> least.at_most(
                    (#[trigger] pool[j]).cost_log(ln, Seq::empty(), None, half, true),
                )
            &&& forall|j: int|
                0 <= j < i ==> least.below(
                    (#[trigger] pool[j]).cost_log(ln, Seq::empty(), None, half, true),
                )
        }),
{
    let half = Real { bits: HALF_BITS };
    let costs = barrier_logs(pool, ln, Seq::empty(), half, true);
    lowest_is_minimal(costs);
    let i = lowest(costs);
    let least = costs[i];
    lemma_plain_log(pool[i], ln);
    assert forall|j: int| 0 <= j < pool.len() implies {
        let cost = (#[trigger] pool[j]).cost_log(ln, Seq::empty(), None, half, true);
        &&& least.at_most(cost)
        &&& j < i ==> least.below(cost)
    } by {
        lemma_plain_log(pool[j], ln);
        assert(costs[j] == pool[j].plain_log(ln, half, true));
        lemma_rank_order(least, costs[j]);
    }
}

/// What is counted while a backend is chosen when warmth counts.
pub open spec fn warmth_choice_clamps<F: Fn(Real) -> Real>(
    pool: Seq<BackendState>,
    ln: F,
    extra: Seq<Real>,
    strengths: Seq<Option<Real>>,
    pi: Real,
    prefill: bool,
) -> nat {
    compared(
        warmth_logs(pool, ln, extra, strengths, pi, prefill),
        warmth_clamps(pool, extra.len(), strengths, pi, prefill),
    )
}

/// Picks the backend with the lowest cost when warmth counts; `strengths` holds one for each.
pub fn select_with_warmth_pi<F: Fn(Real) -> Real + Copy>(
    candidates: &Vec<Backend>,
    extra: &[BarrierFactor],
    strengths: &Vec<Option<Real>>,
    decode_pool: bool,
    pool_pi: Real,
    ln: F,
    events: &mut ClampEvents,
) -> (r: Option<usize>)
    requires
        is_function(ln),
        strengths@.len() == candidates@.len(),
    ensures
        *final(events) == old(events).plus(
            warmth_choice_clamps(
                pool_view(candidates@),
                ln,
                penalties(extra@),
                strengths@,
                pool_pi,
                !decode_pool,
            ),
        ),
        chosen(r) == choice(
            warmth_logs(
                pool_view(candidates@),
                ln,
                penalties(extra@),
                strengths@,
                pool_pi,
                !decode_pool,
            ),
        ),
        r matches Some(i) ==> i < candidates@.len(),
{
    let ghost pool = pool_view(candidates@);
    let ghost all = warmth_logs(
        pool,
        ln,
        penalties(extra@),
        strengths@,
        pool_pi,
        !decode_pool,
    );
    let ghost each = warmth_clamps(pool, extra@.len(), strengths@, pool_pi, !decode_pool);
    let n: usize = candidates.len();
    let mut costs: Vec<Real> = Vec::new();
    let mut counts: Vec<u64> = Vec::new();
    for i in 0..n
        invariant
            is_function(ln),
            n == candidates@.len() == strengths@.len(),
            pool == pool_view(candidates@),
            all == warmth_logs(
                pool,
                ln,
                penalties(extra@),
                strengths@,
                pool_pi,
                !decode_pool,
            ),
            each == warmth_clamps(pool, extra@.len(), strengths@, pool_pi, !decode_pool),
            costs@ =~= all.take(i as int),
            counts@ =~= each.take(i as int),
    {
        let mut once: ClampEvents = ClampEvents::new();
        let cost: Cost = candidates[i].cost_with_warmth_pi(
            extra,
            strengths[i],
            decode_pool,
            pool_pi,
            ln,
            &mut once,
        );
        proof {
            let b = candidates@[i as int]@;
            count_is_exact(
                ClampEvents { count: 0 },
                b.cost_clamps(
                    extra@.len(),
                    warmth_reward(strengths@[i as int]),
                    pool_pi,
                    !decode_pool,
                ),
            );
        }
        costs.push(cost.ln());
        counts.push(once.count);
    }
    assert(costs@ =~= all);
    assert(counts@ =~= each);
    pick_lowest_counted(&costs, &counts, events)
}

/// Picks the backend with the lowest cost when warmth counts, for equal pool shares.
pub fn select_with_warmth<F: Fn(Real) -> Real + Copy>(
    candidates: &Vec<Backend>,
    extra: &[BarrierFactor],
    strengths: &Vec<Option<Real>>,
    decode_pool: bool,
    ln: F,
    events: &mut ClampEvents,
) -> (r: Option<usize>)
    requires
        is_function(ln),
        strengths@.len() == candidates@.len(),
    ensures
        *final(events) == old(events).plus(
            warmth_choice_clamps(
                pool_view(candidates@),
                ln,
                penalties(extra@),
                strengths@,
                Real { bits: HALF_BITS },
                !decode_pool,
            ),
        ),
        chosen(r) == choice(
            warmth_logs(
                pool_view(candidates@),
                ln,
                penalties(extra@),
                strengths@,
                Real { bits: HALF_BITS },
                !decode_pool,
            ),
        ),
        r matches Some(i) ==> i < candidates@.len(),
{
    select_with_warmth_pi(
        candidates,
        extra,
        strengths,
        decode_pool,
        Real::from_bits(HALF_BITS),
        ln,
        events,
    )
}

/// What is counted while a prefill backend is chosen.
pub open spec fn prefill_choice_clamps<F: Fn(Real) -> Real>(
    pool: Seq<BackendState>,
    ln: F,
    strengths: Option<Seq<Option<Real>>>,
    pi: Real,
) -> nat {
    match strengths {
        Some(s) => warmth_choice_clamps(pool, ln, Seq::empty(), s, pi, true),
        None => 0,
    }
}

/// The costs by which a prefill backend is chosen: without a snapshot of warmth only queues count.
pub open spec fn prefill_logs<F: Fn(Real) -> Real>(
    pool: Seq<BackendState>,
    ln: F,
    strengths: Option<Seq<Option<Real>>>,
    pi: Real,
) -> Seq<Real> {
    match strengths {
        Some(s) => warmth_logs(pool, ln, Seq::empty(), s, pi, true),
        None => barrier_logs(pool, ln, Seq::empty(), pi, true),
    }
}

/// The view of an optional list of strengths.
pub open spec fn strengths_view(s: Option<&Vec<Option<Real>>>) -> Option<Seq<Option<Real>>> {
    match s {
        Some(v) => Some(v@),
        None => None,
    }
}

/// Picks the prefill backend for a request; the strengths are those its identity may use.
pub fn select_prefill_with_identity_pi<F: Fn(Real) -> Real + Copy>(
    candidates: &Vec<Backend>,
    strengths: Option<&Vec<Option<Real>>>,
    pool_pi: Real,
    ln: F,
    events: &mut ClampEvents,
) -> (r: Option<usize>)
    requires
        is_function(ln),
        strengths matches Some(s) ==> s@.len() == candidates@.len(),
    ensures
        *final(events) == old(events).plus(
            prefill_choice_clamps(
                pool_view(candidates@),
                ln,
                strengths_view(strengths),
                pool_pi,
            ),
        ),
        chosen(r) == choice(
            prefill_logs(pool_view(candidates@), ln, strengths_view(strengths), pool_pi),
        ),
        r matches Some(i) ==> i < candidates@.len(),
{
    let none: Vec<BarrierFactor> = Vec::new();
    assert(penalties(none@) =~= Seq::<Real>::empty());
    match strengths {
        Some(s) => {
            select_with_warmth_pi(candidates, none.as_slice(), s, false, pool_pi, ln, events)
        },
        None => {
            proof {
                counts_add_up(*old(events), 0, 0);
            }
            select_by_queue(candidates, pool_pi, true, ln)
        },
    }
}

/// What decode placement knows of the prefill it follows.
#[derive(Debug)]
pub struct DecodePlacementCtx<'a> {
    pub prefill_label: &'a str,
    pub pf_topo: &'a TopologyId,
    pub kv_bytes: u64,
    pub use_rdma_routing: bool,
}

/// What decode placement knows, as the contracts see it.
pub struct PlacementView {
    pub prefill_label: Seq<char>,
    pub place: Place,
    pub kv_bytes: u64,
    pub use_rdma_routing: bool,
}

impl<'a> View for DecodePlacementCtx<'a> {
    type V = PlacementView;

    open spec fn view(&self) -> PlacementView {
        PlacementView {
            prefill_label: self.prefill_label@,
            place: self.pf_topo@,
            kv_bytes: self.kv_bytes,
            use_rdma_routing: self.use_rdma_routing,
        }
    }
}

/// The penalty for moving KV to another backend: none if it stays, else by predicted transfer time
/// or flat, and at least one.
pub open spec fn transfer_penalty<F: Fn(Real) -> Real, G: Fn(Real) -> Real>(
    ctx: PlacementView,
    b: BackendState,
    ln: F,
    exp: G,
) -> Option<Real> {
    if ctx.prefill_label == b.label {
        None
    } else if ctx.use_rdma_routing {
        Some(
            larger(
                value_at(exp, transfer_log(ln, ctx.kv_bytes, distance(ctx.place, b.place))),
                one(),
            ),
        )
    } else {
        Some(larger(Real { bits: ROUTING_TRANSFER_PENALTY_BITS }, one()))
    }
}

/// The penalties of a decode candidate: those of the request, then that of the transfer.
pub open spec fn decode_penalties<F: Fn(Real) -> Real, G: Fn(Real) -> Real>(
    ctx: PlacementView,
    b: BackendState,
    extra: Seq<Real>,
    ln: F,
    exp: G,
) -> Seq<Real> {
    match transfer_penalty(ctx, b, ln, exp) {
        Some(p) => extra.push(penalty_or_highest(p)),
        None => extra,
    }
}

/// The strength at an index; none without a snapshot of warmth.
pub open spec fn strength_at(strengths: Option<Seq<Option<Real>>>, i: int) -> Option<Real> {
    match strengths {
        Some(s) => s[i],
        None => None,
    }
}

/// The costs by which a decode backend is chosen.
pub open spec fn decode_logs<F: Fn(Real) -> Real, G: Fn(Real) -> Real>(
    ctx: PlacementView,
    pool: Seq<BackendState>,
    strengths: Option<Seq<Option<Real>>>,
    extra: Seq<Real>,
    pi: Real,
    ln: F,
    exp: G,
) -> Seq<Real> {
    Seq::new(
        pool.len(),
        |i: int|
            pool[i].cost_log(
                ln,
                decode_penalties(ctx, pool[i], extra, ln, exp),
                warmth_reward(strength_at(strengths, i)),
                pi,
                false,
            ),
    )
}

/// What pricing each decode candidate counts: its transfer penalty and its service time.
pub open spec fn decode_clamps<F: Fn(Real) -> Real, G: Fn(Real) -> Real>(
    ctx: PlacementView,
    pool: Seq<BackendState>,
    strengths: Option<Seq<Option<Real>>>,
    extra: Seq<Real>,
    pi: Real,
    ln: F,
    exp: G,
) -> Seq<u64> {
    Seq::new(
        pool.len(),
        |i: int|
            ((match transfer_penalty(ctx, pool[i], ln, exp) {
                Some(p) => unusable_penalty(p),
                None => 0,
            }) + pool[i].cost_clamps(
                decode_penalties(ctx, pool[i], extra, ln, exp).len(),
                warmth_reward(strength_at(strengths, i)),
                pi,
                false,
            )) as u64,
    )
}

impl<'a> DecodePlacementCtx<'a> {
    fn transfer_penalty<F: Fn(Real) -> Real + Copy, G: Fn(Real) -> Real + Copy>(
        &self,
        candidate: &Backend,
        ln: F,
        exp: G,
    ) -> (r: Option<Real>)
        requires
            is_function(ln),
            is_function(exp),
        ensures
            r == transfer_penalty(self@, candidate@, ln, exp),
    {
        if crate::text::same_text(self.prefill_label, candidate.label.as_str()) {
            return None;
        }
        let full: Real = Real::from_bits(ONE_BITS);
        if self.use_rdma_routing {
            let log: Real = rdma_transfer_ln(
                self.kv_bytes,
                self.pf_topo,
                candidate.topology(),
                ln,
            );
            Some(evaluate(exp, log).max_with(full))
        } else {
            Some(Real::from_bits(ROUTING_TRANSFER_PENALTY_BITS).max_with(full))
        }
    }
}

/// Picks the decode backend that follows a prefill. `ln` and `exp` are the logarithm and the
/// exponential function.
pub fn select_decode_with_pi<F: Fn(Real) -> Real + Copy, G: Fn(Real) -> Real + Copy>(
    ctx: &DecodePlacementCtx<'_>,
    candidates: &Vec<Backend>,
    strengths: Option<&Vec<Option<Real>>>,
    extra_barriers: &[BarrierFactor],
    pool_pi: Real,
    ln: F,
    exp: G,
    events: &mut ClampEvents,
) -> (r: Option<usize>)
    requires
        is_function(ln),
        is_function(exp),
        strengths matches Some(s) ==> s@.len() == candidates@.len(),
    ensures
        match r {
            Some(i) => i < candidates@.len() && i == lowest_number(
                decode_logs(
                    ctx@,
                    pool_view(candidates@),
                    strengths_view(strengths),
                    penalties(extra_barriers@),
                    pool_pi,
                    ln,
                    exp,
                ),
            ),
            None => candidates@.len() == 0,
        },
        *final(events) == old(events).plus(
            total(
                decode_clamps(
                    ctx@,
                    pool_view(candidates@),
                    strengths_view(strengths),
                    penalties(extra_barriers@),
                    pool_pi,
                    ln,
                    exp,
                ),
            ),
        ),
{
    let ghost pool = pool_view(candidates@);
    let ghost held = strengths_view(strengths);
    let ghost extra = penalties(extra_barriers@);
    let ghost all = decode_logs(ctx@, pool, held, extra, pool_pi, ln, exp);
    let ghost each = decode_clamps(ctx@, pool, held, extra, pool_pi, ln, exp);
    let n: usize = candidates.len();
    let mut costs: Vec<Real> = Vec::new();
    let mut counts: Vec<u64> = Vec::new();
    for i in 0..n
        invariant
            is_function(ln),
            is_function(exp),
            n == candidates@.len(),
            strengths matches Some(s) ==> s@.len() == candidates@.len(),
            pool == pool_view(candidates@),
            held == strengths_view(strengths),
            extra == penalties(extra_barriers@),
            all == decode_logs(ctx@, pool, held, extra, pool_pi, ln, exp),
            each == decode_clamps(ctx@, pool, held, extra, pool_pi, ln, exp),
            costs@ =~= all.take(i as int),
            counts@ =~= each.take(i as int),
    {
        let mut once: ClampEvents = ClampEvents::new();
        let ghost none = once;
        let mut barriers: Vec<BarrierFactor> = Vec::new();
        for j in 0..extra_barriers.len()
            invariant
                barriers@ =~= extra_barriers@.take(j as int),
        {
            barriers.push(extra_barriers[j]);
        }
        assert(barriers@ =~= extra_barriers@);
        if let Some(penalty) = ctx.transfer_penalty(&candidates[i], ln, exp) {
            barriers.push(BarrierFactor::clamped(penalty, &mut once));
        }
        assert(penalties(barriers@) =~= decode_penalties(ctx@, pool[i as int], extra, ln, exp));
        let strength: Option<Real> = match strengths {
            Some(s) => s[i],
            None => None,
        };
        let cost: Real = candidates[i].cost_with_warmth_pi(
            barriers.as_slice(),
            strength,
            true,
            pool_pi,
            ln,
            &mut once,
        ).ln();
        assert(cost == all[i as int]);
        proof {
            let b = pool[i as int];
            let lead: nat = match transfer_penalty(ctx@, b, ln, exp) {
                Some(p) => unusable_penalty(p),
                None => 0,
            };
            let rest = b.cost_clamps(
                decode_penalties(ctx@, b, extra, ln, exp).len(),
                warmth_reward(strength_at(held, i as int)),
                pool_pi,
                false,
            );
            assert(penalties(barriers@).len() == barriers@.len());
            counts_add_up(none, lead, rest);
            count_is_exact(none, lead + rest);
            assert(once.count == each[i as int]);
        }
        costs.push(cost);
        counts.push(once.count);
    }
    assert(costs@ =~= all);
    assert(counts@ =~= each);
    add_total(&counts, events);
    pick_lowest_number(&costs)
}

} // verus!
