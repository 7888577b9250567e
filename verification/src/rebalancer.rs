//! Shares of the prefill and decode pools.

use vstd::prelude::*;
use crate::binary64::{
    absolute, difference, lemma_value_order, of_nat, one, product, quotient, sum, zero, Real,
    ONE_BITS,
};
use crate::factors::add_all;
use crate::ledger::NANOS_PER_SEC;
use crate::params::{
    POOL_REBALANCE_COOLDOWN_S, POOL_REBALANCE_HYSTERESIS_BITS, POOL_WEIGHT_KV_BITS,
    POOL_WEIGHT_QUEUE_BITS, POOL_WEIGHT_SLO_BITS,
};
use crate::rcu::{is_share, lemma_share, share};

verus! {

/// Encoding of one half.
pub const HALF_BITS: u64 = 0x3fe0_0000_0000_0000;

/// Pressure on the pools, each signal between zero and one.
#[derive(Debug, Clone, Copy, PartialEq, Eq, Structural)]
pub struct PoolPressure {
    pub q_prefill: Real,
    pub q_decode: Real,
    pub kv_decode: Real,
    pub slo_prefill: Real,
    pub slo_decode: Real,
    pub fp_share: Real,
}

impl Default for PoolPressure {
    fn default() -> (r: PoolPressure)
        ensures
            r == no_pressure(),
    {
        let nil: Real = Real::from_bits(0);
        PoolPressure {
            q_prefill: nil,
            q_decode: nil,
            kv_decode: nil,
            slo_prefill: nil,
            slo_decode: nil,
            fp_share: nil,
        }
    }
}

/// No pressure at all.
pub open spec fn no_pressure() -> PoolPressure {
    PoolPressure {
        q_prefill: zero(),
        q_decode: zero(),
        kv_decode: zero(),
        slo_prefill: zero(),
        slo_decode: zero(),
        fp_share: zero(),
    }
}

/// The mean of some values, held between zero and one; zero without values.
pub open spec fn mean(values: Seq<Real>) -> Real {
    if values.len() == 0 {
        zero()
    } else {
        share(quotient(add_all(zero(), values), of_nat(values.len())))
    }
}

/// Each value held between zero and one.
pub open spec fn shares(values: Seq<Real>) -> Seq<Real> {
    values.map_values(|v: Real| share(v))
}

/// Holds a value between zero and one.
pub fn to_share(x: Real) -> (r: Real)
    ensures
        r == share(x),
{
    proof {
        lemma_value_order(one(), zero());
    }
    x.clamp_to(Real::from_bits(0), Real::from_bits(ONE_BITS))
}

fn mean_of(values: &[Real]) -> (r: Real)
    ensures
        r == mean(values@),
{
    let n: usize = values.len();
    let mut total: Real = Real::from_bits(0);
    for i in 0..n
        invariant
            n == values@.len(),
            total == add_all(zero(), values@.take(i as int)),
    {
        assert(values@.take(i + 1).drop_last() =~= values@.take(i as int));
        total = total.plus(values[i]);
    }
    assert(values@.take(n as int) =~= values@);
    if n == 0 {
        Real::from_bits(0)
    } else {
        to_share(total.over(Real::from_u64(n as u64)))
    }
}

fn mean_occupancy(values: &[Real]) -> (r: Real)
    ensures
        r == mean(shares(values@)),
{
    let n: usize = values.len();
    let mut held: Vec<Real> = Vec::new();
    for i in 0..n
        invariant
            n == values@.len(),
            held@ =~= shares(values@).take(i as int),
    {
        held.push(to_share(values[i]));
    }
    assert(held@ =~= shares(values@));
    mean_of(held.as_slice())
}

/// What a gossip snapshot says about each backend of the two pools.
#[derive(Debug)]
pub struct PoolGossip {
    pub prefill_occupancy: Vec<Real>,
    pub decode_occupancy: Vec<Real>,
    pub decode_kv_pressure: Vec<Real>,
}

/// The pressure that a snapshot shows.
pub open spec fn gossip_pressure(g: PoolGossip, fp_share: Real) -> PoolPressure {
    PoolPressure {
        q_prefill: mean(shares(g.prefill_occupancy@)),
        q_decode: mean(shares(g.decode_occupancy@)),
        kv_decode: mean(g.decode_kv_pressure@),
        slo_prefill: zero(),
        slo_decode: zero(),
        fp_share: share(fp_share),
    }
}

/// Condenses a gossip snapshot into pressure signals.
pub fn export_pool_pressure(gossip: &PoolGossip, fp_share: Real) -> (r: PoolPressure)
    ensures
        r == gossip_pressure(*gossip, fp_share),
{
    PoolPressure {
        q_prefill: mean_occupancy(gossip.prefill_occupancy.as_slice()),
        q_decode: mean_occupancy(gossip.decode_occupancy.as_slice()),
        kv_decode: mean_of(gossip.decode_kv_pressure.as_slice()),
        slo_prefill: Real::from_bits(0),
        slo_decode: Real::from_bits(0),
        fp_share: to_share(fp_share),
    }
}

/// Whether shares are only computed or also applied.
#[derive(Debug, Clone, Copy, PartialEq, Eq, Structural)]
pub enum RebalancerMode {
    Shadow,
    CanActuate,
}

/// Weighted demand on the prefill pool.
pub open spec fn prefill_demand(s: PoolPressure) -> Real {
    sum(
        product(Real { bits: POOL_WEIGHT_QUEUE_BITS }, s.q_prefill),
        product(
            product(Real { bits: POOL_WEIGHT_SLO_BITS }, s.slo_prefill),
            difference(one(), s.fp_share),
        ),
    )
}

/// Weighted demand on the decode pool.
pub open spec fn decode_demand(s: PoolPressure) -> Real {
    sum(
        sum(
            product(Real { bits: POOL_WEIGHT_QUEUE_BITS }, s.q_decode),
            product(Real { bits: POOL_WEIGHT_KV_BITS }, s.kv_decode),
        ),
        product(Real { bits: POOL_WEIGHT_SLO_BITS }, s.slo_decode),
    )
}

/// The prefill share that the demand asks for; without demand the present one.
pub open spec fn wanted_share(pi: Real, s: PoolPressure) -> Real {
    let total = sum(prefill_demand(s), decode_demand(s));
    if total.at_most(zero()) {
        pi
    } else {
        share(quotient(prefill_demand(s), total))
    }
}

/// The rebalancer, as the contracts see it.
pub struct RebalancerState {
    pub pi: Real,
    pub last_change_ns: u64,
    pub mode: RebalancerMode,
}

impl RebalancerState {
    /// Whether the wanted share is applied: it differs enough, the last change is long enough ago,
    /// and shares are not only computed.
    pub open spec fn applies(self, s: PoolPressure, now_ns: u64) -> bool {
        let wanted = wanted_share(self.pi, s);
        &&& !absolute(difference(wanted, self.pi)).at_most(
            Real { bits: POOL_REBALANCE_HYSTERESIS_BITS },
        )
        &&& now_ns - self.last_change_ns >= POOL_REBALANCE_COOLDOWN_S * NANOS_PER_SEC
        &&& self.mode == RebalancerMode::CanActuate
    }

    /// The state after looking at the pressure.
    pub open spec fn after_update(self, s: PoolPressure, now_ns: u64) -> RebalancerState {
        if self.applies(s, now_ns) {
            RebalancerState {
                pi: wanted_share(self.pi, s),
                last_change_ns: now_ns,
                mode: self.mode,
            }
        } else {
            self
        }
    }
}

/// Decides how capacity is shared between the pools.
#[derive(Debug)]
pub struct PoolRebalancer {
    pi: Real,
    last_change_ns: u64,
    mode: RebalancerMode,
}

impl View for PoolRebalancer {
    type V = RebalancerState;

    closed spec fn view(&self) -> RebalancerState {
        RebalancerState { pi: self.pi, last_change_ns: self.last_change_ns, mode: self.mode }
    }
}

/// A time of last change that lets the first change happen at once, where the clock reaches back
/// far enough.
pub open spec fn ready_since(now_ns: u64) -> u64 {
    if now_ns >= (POOL_REBALANCE_COOLDOWN_S + 1) * NANOS_PER_SEC {
        (now_ns - (POOL_REBALANCE_COOLDOWN_S + 1) * NANOS_PER_SEC) as u64
    } else {
        now_ns
    }
}

impl PoolRebalancer {
    /// Equal shares.
    pub fn new(mode: RebalancerMode, now_ns: u64) -> (r: PoolRebalancer)
        ensures
            r@ == (RebalancerState {
                pi: Real { bits: HALF_BITS },
                last_change_ns: ready_since(now_ns),
                mode,
            }),
    {
        let back: u64 = (POOL_REBALANCE_COOLDOWN_S + 1) * NANOS_PER_SEC;
        PoolRebalancer {
            pi: Real::from_bits(HALF_BITS),
            last_change_ns: if now_ns >= back {
                now_ns - back
            } else {
                now_ns
            },
            mode,
        }
    }

    /// The prefill share in force.
    pub fn pi(&self) -> (r: Real)
        ensures
            r == self@.pi,
    {
        self.pi
    }

    /// The prefill share that the pressure asks for.
    pub fn compute_pi_star(&self, signals: &PoolPressure) -> (r: Real)
        ensures
            r == wanted_share(self@.pi, *signals),
    {
        let queue: Real = Real::from_bits(POOL_WEIGHT_QUEUE_BITS);
        let kv: Real = Real::from_bits(POOL_WEIGHT_KV_BITS);
        let slo: Real = Real::from_bits(POOL_WEIGHT_SLO_BITS);
        let full: Real = Real::from_bits(ONE_BITS);
        let prefill: Real = queue.times(signals.q_prefill).plus(
            slo.times(signals.slo_prefill).times(full.minus(signals.fp_share)),
        );
        let decode: Real = queue.times(signals.q_decode).plus(kv.times(signals.kv_decode)).plus(
            slo.times(signals.slo_decode),
        );
        let total: Real = prefill.plus(decode);
        if total.le(Real::from_bits(0)) {
            return self.pi;
        }
        to_share(prefill.over(total))
    }

    /// Applies the wanted share if it differs enough, the last change is long enough ago, and the
    /// mode allows it.
    pub fn maybe_update(&mut self, signals: &PoolPressure, now_ns: u64) -> (r: Option<Real>)
        ensures
            final(self)@ == old(self)@.after_update(*signals, now_ns),
            r == if old(self)@.applies(*signals, now_ns) {
                Some(wanted_share(old(self)@.pi, *signals))
            } else {
                None
            },
    {
        let pi_star: Real = self.compute_pi_star(signals);
        if pi_star.minus(self.pi).abs_value().le(Real::from_bits(POOL_REBALANCE_HYSTERESIS_BITS)) {
            return None;
        }
        if now_ns < self.last_change_ns || now_ns - self.last_change_ns < POOL_REBALANCE_COOLDOWN_S
            * NANOS_PER_SEC {
            return None;
        }
        if self.mode == RebalancerMode::Shadow {
            return None;
        }
        self.pi = pi_star;
        self.last_change_ns = now_ns;
        Some(self.pi)
    }

    /// The prefill share that the pressure asks for, without applying it.
    pub fn shadow_pi_star(&self, signals: &PoolPressure) -> (r: Real)
        ensures
            r == wanted_share(self@.pi, *signals),
    {
        self.compute_pi_star(signals)
    }

    /// Applies a share at once.
    pub fn force_actuate(&mut self, pi: Real, now_ns: u64)
        ensures
            final(self)@ == (RebalancerState { pi, last_change_ns: now_ns, mode: old(self)@.mode }),
    {
        self.pi = pi;
        self.last_change_ns = now_ns;
    }
}

/// In shadow mode no pressure ever changes the share.
pub proof fn shadow_never_actuates(r: RebalancerState, s: PoolPressure, now_ns: u64)
    requires
        r.mode == RebalancerMode::Shadow,
    ensures
        r.after_update(s, now_ns) == r,
{
}

/// Right after a change nothing changes again until the cooldown is over.
pub proof fn cooldown_holds(
    r: RebalancerState,
    s: PoolPressure,
    t: PoolPressure,
    then_ns: u64,
    now_ns: u64,
)
    requires
        r.applies(s, then_ns),
        now_ns - then_ns < POOL_REBALANCE_COOLDOWN_S * NANOS_PER_SEC,
    ensures
        r.after_update(s, then_ns).after_update(t, now_ns) == r.after_update(s, then_ns),
{
}

/// The share in force stays a share, whatever the pressure.
pub proof fn share_stays_a_share(r: RebalancerState, s: PoolPressure, now_ns: u64)
    requires
        is_share(r.pi),
    ensures
        is_share(wanted_share(r.pi, s)),
        is_share(r.after_update(s, now_ns).pi),
{
    lemma_share(quotient(prefill_demand(s), sum(prefill_demand(s), decode_demand(s))));
}

/// A wanted share that hardly differs from the one in force is not applied.
pub proof fn small_changes_are_ignored(r: RebalancerState, s: PoolPressure, now_ns: u64)
    requires
        absolute(difference(wanted_share(r.pi, s), r.pi)).at_most(
            Real { bits: POOL_REBALANCE_HYSTERESIS_BITS },
        ),
    ensures
        r.after_update(s, now_ns) == r,
{
}

/// Whatever a snapshot says, every pressure signal lies between zero and one, unless it is not a
/// number.
pub proof fn pressure_is_normalised(g: PoolGossip, fp_share: Real)
    ensures
        is_share(gossip_pressure(g, fp_share).q_prefill),
        is_share(gossip_pressure(g, fp_share).q_decode),
        is_share(gossip_pressure(g, fp_share).kv_decode),
        is_share(gossip_pressure(g, fp_share).fp_share),
{
    lemma_mean_is_share(shares(g.prefill_occupancy@));
    lemma_mean_is_share(shares(g.decode_occupancy@));
    lemma_mean_is_share(g.decode_kv_pressure@);
    lemma_share(fp_share);
}

proof fn lemma_mean_is_share(values: Seq<Real>)
    ensures
        is_share(mean(values)),
{
    lemma_share(quotient(add_all(zero(), values), of_nat(values.len())));
    lemma_value_order(zero(), one());
}

} // verus!
