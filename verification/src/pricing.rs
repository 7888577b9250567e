//! What a price says, in numbers: how the log-cost of a backend moves with its queue, its
//! penalties, its service time and its warmth.

use vstd::prelude::*;
use vstd::arithmetic::power2::{
    lemma2_to64, lemma2_to64_rest, lemma_pow2_adds, lemma_pow2_pos, lemma_pow2_strictly_increases,
    lemma_pow2_unfold, pow2,
};
use crate::backend::{
    barrier_logs, decode_logs, decode_penalties, lemma_queue, pool_share, scaled, service_log,
    warmth_logs, warmth_reward, BackendState, PlacementView, EPSILON_BITS,
};
use crate::binary64::{
    absolute, clamped, difference, lemma_count_is_exact, lemma_nearest_bound, lemma_nearest_range,
    lemma_next_count, lemma_one_value, lemma_ratio_error, lemma_sum_error, lemma_sum_value,
    lemma_units_increase, lemma_units_of_power, lemma_value_order, negation, of_nat, one, product,
    quotient, rank_extends_order, signed, sum, units, zero, Real, ONE_BITS,
};
use crate::demand::lemma_part;
use crate::elementary::value_at;
use crate::factors::{
    add_all, apart, corrected, corrector_ceiling, corrector_floor, exact_sum, factor_logs, is_core,
    is_log_sized, is_logarithm, is_penalty, is_reward, lemma_add_all_within, lemma_extremes,
    lemma_factor_logs, most_expensive, penalty_or_highest, phi_factor, phi_penalty, total_log,
    utilisation, warmth_factor, warmth_factor_is_bounded,
};
use crate::params::{
    CORRECTOR_CEILING_BITS, CORRECTOR_FLOOR_BITS, PHI_MAX_UTILISATION_BITS, POOL_SHARE_FLOOR_BITS,
    ROUTING_OBSERVED_LATENCY_EWMA_ALPHA_BITS, WARMTH_MAX_DISCOUNT_BITS,
};
use crate::rebalancer::HALF_BITS;
use crate::rounding::{nearest, HIDDEN_BIT};
use crate::selection::{lowest, lowest_is_minimal, lowest_number, lowest_number_is_minimal};

verus! {

/// Whether a logarithm tells numbers apart: of two numbers that differ by one part in `2^20` or
/// more, the logarithms differ by at least `2^-21`.
pub open spec fn separates<F: Fn(Real) -> Real>(ln: F) -> bool {
    &&& is_logarithm(ln)
    &&& forall|x: Real, y: Real|
        is_core(x) && is_core(y) && x.value() <= 0x10_0000 * (y.value() - x.value())
            ==> pow2(1053) <= (#[trigger] value_at(ln, y)).value() - (#[trigger] value_at(
            ln,
            x,
        )).value()
}

/// The sum of the logarithms of some factors, in smallest units.
pub open spec fn logs_of<F: Fn(Real) -> Real>(ln: F, factors: Seq<Real>) -> int {
    exact_sum(factors.map_values(|x: Real| value_at(ln, x)))
}

/// With at most a thousand terms each addition is off by at most half a step below `2^20`.
proof fn lemma_add_all_close(start: Real, terms: Seq<Real>, c: nat)
    requires
        c + terms.len() < 0x400,
        start.finite(),
        -(c * pow2(1084)) <= start.value() <= c * pow2(1084),
        forall|i: int| 0 <= i < terms.len() ==> is_log_sized(#[trigger] terms[i]),
    ensures
        apart(add_all(start, terms).value(), start.value() + exact_sum(terms)) <= terms.len()
            * pow2(1040),
    decreases terms.len(),
{
    let h = pow2(1040);
    if terms.len() > 0 {
        let rest = terms.drop_last();
        assert forall|i: int| 0 <= i < rest.len() implies is_log_sized(#[trigger] rest[i]) by {
            assert(is_log_sized(terms[i]));
        }
        lemma_add_all_close(start, rest, c);
        lemma_add_all_within(start, rest, c);
        assert(is_log_sized(terms[terms.len() - 1]));
        let before = add_all(start, rest);
        let n = (c + rest.len()) as nat;
        let k = pow2(1084);
        lemma_pow2_pos(1084);
        lemma_pow2_adds(10, 1084);
        lemma2_to64();
        assert((n + 1) * k == n * k + k) by (nonlinear_arith);
        assert((n + 1) * k < 0x400 * k) by (nonlinear_arith)
            requires
                n + 1 < 0x400,
                k > 0,
        ;
        lemma_sum_error(before, terms.last(), 1094);
        assert(terms.len() * h == rest.len() * h + h) by (nonlinear_arith)
            requires
                terms.len() == rest.len() + 1,
        ;
    } else {
        assert(0 * h == 0);
    }
}

/// A sum may be taken from the front as well.
proof fn lemma_sum_from_front(first: Real, rest: Seq<Real>)
    ensures
        exact_sum(seq![first] + rest) == first.value() + exact_sum(rest),
    decreases rest.len(),
{
    let all = seq![first] + rest;
    if rest.len() > 0 {
        assert(all.drop_last() =~= seq![first] + rest.drop_last());
        assert(all.last() == rest.last());
        lemma_sum_from_front(first, rest.drop_last());
    } else {
        assert(all.drop_last() =~= Seq::<Real>::empty());
        assert(all.last() == first);
        assert(exact_sum(all.drop_last()) == 0);
    }
}

/// One more factor adds its logarithm.
pub proof fn logs_add_up<F: Fn(Real) -> Real>(ln: F, factors: Seq<Real>, x: Real)
    ensures
        logs_of(ln, Seq::empty()) == 0,
        logs_of(ln, factors.push(x)) == logs_of(ln, factors) + value_at(ln, x).value(),
        logs_of(ln, seq![x] + factors) == value_at(ln, x).value() + logs_of(ln, factors),
{
    let f = |x: Real| value_at(ln, x);
    let logs = factors.map_values(f);
    assert(factors.push(x).map_values(f).drop_last() =~= logs);
    assert(factors.push(x).map_values(f).last() == value_at(ln, x));
    assert((seq![x] + factors).map_values(f) =~= seq![value_at(ln, x)] + logs);
    lemma_sum_from_front(value_at(ln, x), logs);
    assert(Seq::<Real>::empty().map_values(f) =~= Seq::empty());
}

proof fn lemma_total_close<F: Fn(Real) -> Real>(
    ln: F,
    core: Real,
    barriers: Seq<Real>,
    discounts: Seq<Real>,
)
    requires
        is_logarithm(ln),
        is_core(core),
        forall|i: int| 0 <= i < barriers.len() ==> is_penalty(#[trigger] barriers[i]),
        forall|i: int| 0 <= i < discounts.len() ==> is_reward(#[trigger] discounts[i]),
        barriers.len() + discounts.len() <= 1002,
    ensures
        total_log(factor_logs(ln, core, barriers, discounts, one())).finite(),
        apart(
            total_log(factor_logs(ln, core, barriers, discounts, one())).value(),
            value_at(ln, core).value() + logs_of(ln, barriers) + logs_of(ln, discounts),
        ) <= pow2(1050),
{
    let logs = factor_logs(ln, core, barriers, discounts, one());
    let b = barriers.len();
    let d = discounts.len();
    let h = pow2(1040);
    lemma_pow2_pos(1040);
    lemma_pow2_pos(1084);
    lemma_factor_logs(ln, core, barriers, discounts);
    assert(1 * pow2(1084) == pow2(1084));
    let first = add_all(logs.core, logs.barriers);
    lemma_add_all_close(logs.core, logs.barriers, 1);
    lemma_add_all_within(logs.core, logs.barriers, 1);
    lemma_add_all_close(first, logs.discounts, 1 + b);
    lemma_add_all_within(first, logs.discounts, 1 + b);
    lemma_pow2_adds(10, 1040);
    lemma2_to64();
    assert(b * h + d * h <= 1024 * h) by (nonlinear_arith)
        requires
            b + d <= 1002,
            h > 0,
    ;
}

/// The log-cost of a service in numbers: the logarithms of its time, of one plus the requests in
/// flight, of every penalty and of every reward, up to rounding of at most `2^-24`.
pub proof fn service_log_in_numbers<F: Fn(Real) -> Real>(
    ln: F,
    core: Real,
    inflight: nat,
    extra: Seq<Real>,
    discounts: Seq<Real>,
)
    requires
        is_logarithm(ln),
        is_core(core),
        inflight < HIDDEN_BIT,
        forall|i: int| 0 <= i < extra.len() ==> is_penalty(#[trigger] extra[i]),
        forall|i: int| 0 <= i < discounts.len() ==> is_reward(#[trigger] discounts[i]),
        extra.len() + discounts.len() <= 1001,
    ensures
        service_log(ln, core, inflight, extra, discounts).finite(),
        apart(
            service_log(ln, core, inflight, extra, discounts).value(),
            value_at(ln, core).value() + value_at(ln, of_nat(inflight + 1)).value() + logs_of(
                ln,
                extra,
            ) + logs_of(ln, discounts),
        ) <= pow2(1050),
{
    lemma_next_count(inflight);
    lemma_queue(inflight, inflight);
    let queue = of_nat(inflight + 1);
    let all = seq![penalty_or_highest(sum(one(), of_nat(inflight)))] + extra;
    assert forall|i: int| 0 <= i < all.len() implies is_penalty(#[trigger] all[i]) by {
        if i > 0 {
            assert(is_penalty(extra[i - 1]));
        }
    }
    lemma_total_close(ln, core, all, discounts);
    logs_add_up(ln, extra, queue);
}

/// The factor by which a pool share scales a time lies between one half and sixteen.
pub proof fn share_scale_is_bounded(pi: Real, prefill: bool)
    requires
        !pi.is_nan(),
    ensures
        ({
            let s = pool_share(pi, prefill);
            let q = quotient(Real { bits: HALF_BITS }, s);
            &&& s.finite() && !s.negative()
            &&& pow2(1069) <= s.value() <= pow2(1074)
            &&& q.finite() && !q.negative()
            &&& pow2(1073) <= q.value() <= pow2(1078)
            &&& scaled(one(), pi, prefill) == q
            &&& is_core(q)
        }),
{
    let half = Real { bits: HALF_BITS };
    let floor = Real { bits: POOL_SHARE_FLOOR_BITS };
    let s = pool_share(pi, prefill);
    lemma_one_value();
    lemma_value_order(floor, one());
    lemma_value_order(zero(), floor);
    let part = if prefill {
        pi
    } else {
        difference(one(), pi)
    };
    assert(!part.is_nan());
    lemma_value_order(part, floor);
    lemma_value_order(one(), part);
    lemma_value_order(s, zero());
    lemma_value_order(one(), s);
    lemma_units_of_power(1069);
    lemma_units_of_power(1073);
    lemma_units_of_power(1078);
    lemma_units_increase(((1069 - 51) * HIDDEN_BIT) as u64, POOL_SHARE_FLOOR_BITS);
    assert(units(0) == 0) by (nonlinear_arith);
    lemma_pow2_pos(1069);
    assert(!s.negative());
    let d = units(s.magnitude());
    let k = pow2(1074);
    lemma_pow2_pos(1073);
    lemma_pow2_pos(1074);
    let n = units(HALF_BITS) * k;
    assert(units(HALF_BITS) == pow2(1073));
    lemma_pow2_adds(1073, 1074);
    lemma_pow2_adds(1078, 1069);
    assert(n <= pow2(1078) * d) by (nonlinear_arith)
        requires
            n == pow2(1078) * pow2(1069),
            pow2(1069) <= d,
    ;
    assert(n >= pow2(1073) * d) by (nonlinear_arith)
        requires
            n == pow2(1073) * k,
            d <= k,
    ;
    lemma_nearest_bound(n, d, HALF_BITS);
    lemma_nearest_bound(n, d, ((1078 - 51) * HIDDEN_BIT) as u64);
    let q = quotient(half, s);
    let m = nearest(n, d);
    assert(q == signed(false, m));
    if m > HALF_BITS {
        lemma_units_increase(HALF_BITS, m);
    }
    if m < ((1078 - 51) * HIDDEN_BIT) as u64 {
        lemma_units_increase(m, ((1078 - 51) * HIDDEN_BIT) as u64);
    }
    assert(k * units(m) == units(m) * k) by (nonlinear_arith);
    lemma_nearest_bound(k * units(m), k, m);
}

/// A time that can be used stands for itself, any other for the longest.
pub open spec fn usable_time(seconds: Real) -> Real {
    if is_core(seconds) {
        seconds
    } else {
        most_expensive()
    }
}

/// The logarithm of a reward, in smallest units; without one it is zero.
pub open spec fn reward_log<F: Fn(Real) -> Real>(ln: F, reward: Option<Real>) -> int {
    match reward {
        Some(r) => value_at(ln, r).value(),
        None => 0,
    }
}

/// The log-cost of a backend in numbers: the logarithms of its service time, of one plus its
/// requests in flight, of every penalty and of its reward. By its queue alone the share of its
/// pool is a factor of its own. Rounding moves it by at most `2^-24`.
pub proof fn cost_in_numbers<F: Fn(Real) -> Real>(
    b: BackendState,
    ln: F,
    extra: Seq<Real>,
    reward: Option<Real>,
    pi: Real,
    prefill: bool,
)
    requires
        is_logarithm(ln),
        !pi.is_nan(),
        b.inflight < HIDDEN_BIT,
        forall|i: int| 0 <= i < extra.len() ==> is_penalty(#[trigger] extra[i]),
        extra.len() <= 1000,
        reward is Some ==> is_reward(reward->0),
    ensures
        b.cost_log(ln, extra, reward, pi, prefill).finite(),
        apart(
            b.cost_log(ln, extra, reward, pi, prefill).value(),
            (if extra.len() == 0 && reward is None {
                value_at(ln, b.priced()).value() + value_at(
                    ln,
                    scaled(one(), pi, prefill),
                ).value()
            } else {
                value_at(ln, usable_time(scaled(b.effective(), pi, prefill))).value()
            }) + value_at(ln, of_nat(b.inflight as nat + 1)).value() + logs_of(ln, extra)
                + reward_log(ln, reward),
        ) <= pow2(1050),
{
    let n = b.inflight as nat;
    lemma_extremes();
    logs_add_up(ln, Seq::empty(), one());
    if extra.len() == 0 && reward is None {
        assert(extra =~= Seq::empty());
        share_scale_is_bounded(pi, prefill);
        lemma_next_count(n);
        lemma_queue(n, n);
        let queue = of_nat(n + 1);
        lemma_value_order(zero(), one());
        lemma_value_order(zero(), queue);
        let x = value_at(ln, b.priced());
        let y = value_at(ln, scaled(one(), pi, prefill));
        let z = value_at(ln, queue);
        assert(is_core(b.priced()));
        assert(is_log_sized(x) && is_log_sized(y) && is_log_sized(z));
        lemma_pow2_adds(10, 1084);
        lemma_pow2_adds(10, 1040);
        lemma_pow2_adds(40, 1040);
        lemma_pow2_adds(44, 1040);
        lemma_pow2_pos(1040);
        lemma_pow2_pos(1084);
        lemma2_to64();
        lemma2_to64_rest();
        lemma_sum_error(x, y, 1094);
        lemma_sum_error(sum(x, y), z, 1094);
    } else {
        let rewards = match reward {
            Some(r) => seq![r],
            None => Seq::empty(),
        };
        if let Some(r) = reward {
            logs_add_up(ln, Seq::empty(), r);
            assert(Seq::empty().push(r) =~= rewards);
        }
        service_log_in_numbers(
            ln,
            usable_time(scaled(b.effective(), pi, prefill)),
            n,
            extra,
            rewards,
        );
    }
}

/// With more requests in flight a backend costs more by the logarithm of the ratio of one plus
/// its requests, whatever its service time, penalties, reward and share; the cost is strictly
/// higher wherever the queue is longer by one part in `2^20`, so that up to a million requests one
/// more is enough.
pub proof fn busier_costs_more<F: Fn(Real) -> Real>(
    a: BackendState,
    b: BackendState,
    ln: F,
    extra: Seq<Real>,
    reward: Option<Real>,
    pi: Real,
    prefill: bool,
)
    requires
        separates(ln),
        !pi.is_nan(),
        a.base == b.base,
        a.observed == b.observed,
        a.inflight < b.inflight < HIDDEN_BIT,
        forall|i: int| 0 <= i < extra.len() ==> is_penalty(#[trigger] extra[i]),
        extra.len() <= 1000,
        reward is Some ==> is_reward(reward->0),
    ensures
        ({
            let low = a.cost_log(ln, extra, reward, pi, prefill);
            let high = b.cost_log(ln, extra, reward, pi, prefill);
            &&& apart(
                high.value() - low.value(),
                value_at(ln, of_nat(b.inflight as nat + 1)).value() - value_at(
                    ln,
                    of_nat(a.inflight as nat + 1),
                ).value(),
            ) <= pow2(1051)
            &&& a.inflight + 1 <= 0x10_0000 * (b.inflight - a.inflight) ==> low.below(high)
                && low.value() + pow2(1052) <= high.value()
        }),
{
    cost_in_numbers(a, ln, extra, reward, pi, prefill);
    cost_in_numbers(b, ln, extra, reward, pi, prefill);
    lemma_pow2_unfold(1051);
    lemma_pow2_unfold(1052);
    lemma_pow2_unfold(1053);
    let m = a.inflight as nat + 1;
    let n = b.inflight as nat + 1;
    if m <= 0x10_0000 * (n - m) {
        lemma_pow2_pos(1074);
        lemma_pow2_pos(1052);
        let k = pow2(1074);
        lemma_count_is_exact(m);
        lemma_count_is_exact(n);
        assert(m * k <= 0x10_0000 * (n * k - m * k)) by (nonlinear_arith)
            requires
                m <= 0x10_0000 * (n - m),
                k > 0,
        ;
        assert(units(0) == 0) by (nonlinear_arith);
        assert(m * k > 0 && n * k > 0) by (nonlinear_arith)
            requires
                m > 0,
                n > 0,
                k > 0,
        ;
        assert(is_core(of_nat(m)) && is_core(of_nat(n)));
    }
}

/// How strong a warmth hit counts, in smallest units: a miss counts nothing, and more than one
/// counts as one.
pub open spec fn warmth_of(strength: Option<Real>) -> int {
    match strength {
        Some(s) => if !s.finite() || s.value() <= 0 {
            0
        } else if s.value() >= pow2(1074) {
            pow2(1074) as int
        } else {
            s.value()
        },
        None => 0,
    }
}

/// A hit of strength `s` leaves the share `1 - s / 2` of a cost, up to `2^-51`.
pub proof fn warmth_in_numbers(strength: Real)
    requires
        strength.finite(),
        zero().below(strength),
    ensures
        is_reward(warmth_factor(strength)),
        apart(
            2 * warmth_factor(strength).value(),
            2 * pow2(1074) - warmth_of(Some(strength)),
        ) <= pow2(1023),
{
    let half = Real { bits: WARMTH_MAX_DISCOUNT_BITS };
    let held = clamped(strength, zero(), one());
    warmth_factor_is_bounded(strength);
    lemma_one_value();
    assert(units(0) == 0) by (nonlinear_arith);
    lemma_value_order(zero(), strength);
    lemma_value_order(one(), strength);
    assert(!held.negative() && held.finite());
    let h = units(held.magnitude());
    assert(h == warmth_of(Some(strength)));
    lemma_units_of_power(1073);
    assert(units(WARMTH_MAX_DISCOUNT_BITS) == pow2(1073));
    lemma_pow2_unfold(1074);
    lemma_pow2_unfold(1075);
    lemma_pow2_pos(1073);
    let k = pow2(1074);
    let n = h * pow2(1073);
    assert(n < k * k) by (nonlinear_arith)
        requires
            n == h * pow2(1073),
            h <= k,
            k == 2 * pow2(1073),
            pow2(1073) > 0,
    ;
    lemma_ratio_error(n, k, 1074);
    let m = nearest(n, k);
    let p = product(held, half);
    assert(p == signed(false, m));
    let e = pow2(1020);
    assert(2 * units(m) - h <= 2 * e && h - 2 * units(m) <= 2 * e) by (nonlinear_arith)
        requires
            units(m) * k - n <= k * e,
            n - units(m) * k <= k * e,
            n == h * pow2(1073),
            k == 2 * pow2(1073),
            pow2(1073) > 0,
    ;
    lemma_pow2_strictly_increases(1020, 1073);
    assert(negation(p).value() == -units(m));
    lemma_sum_error(one(), negation(p), 1075);
    lemma_pow2_unfold(1021);
    lemma_pow2_unfold(1022);
    lemma_pow2_unfold(1023);
}

/// The reward of a warmth strength as a factor: a miss leaves the cost as it is.
pub open spec fn warmth_share(strength: Option<Real>) -> Real {
    match warmth_reward(strength) {
        Some(r) => r,
        None => one(),
    }
}

/// The logarithms of the rewards of two strengths differ at least by `2^-21` when the strengths
/// differ by `2^-18`.
pub proof fn lemma_warmer_share<F: Fn(Real) -> Real>(
    ln: F,
    colder: Option<Real>,
    warmer: Option<Real>,
)
    requires
        separates(ln),
        warmth_of(colder) + pow2(1056) <= warmth_of(warmer),
    ensures
        value_at(ln, warmth_share(warmer)).value() + pow2(1053) <= value_at(
            ln,
            warmth_share(colder),
        ).value(),
{
    lemma_one_value();
    lemma_extremes();
    lemma_pow2_pos(1056);
    assert(units(0) == 0) by (nonlinear_arith);
    warmth_in_numbers(warmer->0);
    let y = warmth_share(warmer);
    let x = warmth_share(colder);
    if warmth_of(colder) > 0 {
        warmth_in_numbers(colder->0);
    }
    assert(is_reward(x) && is_reward(y));
    lemma_pow2_strictly_increases(1023, 1052);
    lemma_pow2_unfold(1056);
    lemma_pow2_unfold(1055);
    lemma_pow2_unfold(1054);
    lemma_pow2_unfold(1053);
    lemma_pow2_adds(20, 1054);
    lemma2_to64();
    assert(apart(2 * x.value(), 2 * pow2(1074) - warmth_of(colder)) <= pow2(1023)) by {
        lemma_pow2_pos(1023);
    }
    assert(x.value() - y.value() >= pow2(1054));
}

/// With the same service time, queue, penalties and share the warmer backend is cheaper.
pub proof fn lemma_warmer_cost<F: Fn(Real) -> Real>(
    a: BackendState,
    b: BackendState,
    ln: F,
    extra: Seq<Real>,
    colder: Option<Real>,
    warmer: Option<Real>,
    pi: Real,
    prefill: bool,
)
    requires
        separates(ln),
        !pi.is_nan(),
        a.base == b.base,
        a.observed == b.observed,
        a.inflight == b.inflight,
        a.inflight < HIDDEN_BIT,
        forall|i: int| 0 <= i < extra.len() ==> is_penalty(#[trigger] extra[i]),
        extra.len() <= 1000,
        warmth_of(colder) + pow2(1056) <= warmth_of(warmer),
        extra.len() > 0 || warmth_of(colder) > 0,
    ensures
        ({
            let high = a.cost_log(ln, extra, warmth_reward(colder), pi, prefill);
            let low = b.cost_log(ln, extra, warmth_reward(warmer), pi, prefill);
            &&& apart(
                high.value() - low.value(),
                value_at(ln, warmth_share(colder)).value() - value_at(
                    ln,
                    warmth_share(warmer),
                ).value(),
            ) <= pow2(1051)
            &&& low.value() + pow2(1052) <= high.value()
            &&& low.below(high)
        }),
{
    let ra = warmth_reward(colder);
    let rb = warmth_reward(warmer);
    assert(units(0) == 0) by (nonlinear_arith);
    lemma_pow2_pos(1056);
    lemma_pow2_pos(1074);
    if ra is Some {
        warmth_in_numbers(colder->0);
    }
    if rb is Some {
        warmth_in_numbers(warmer->0);
    }
    lemma_one_value();
    cost_in_numbers(a, ln, extra, ra, pi, prefill);
    cost_in_numbers(b, ln, extra, rb, pi, prefill);
    lemma_warmer_share(ln, colder, warmer);
    lemma_pow2_unfold(1051);
    lemma_pow2_unfold(1052);
    lemma_pow2_unfold(1053);
    lemma_pow2_pos(1052);
}

/// A log-cost is always finite.
pub proof fn lemma_cost_is_a_number<F: Fn(Real) -> Real>(
    b: BackendState,
    ln: F,
    extra: Seq<Real>,
    reward: Option<Real>,
    pi: Real,
    prefill: bool,
)
    ensures
        b.cost_log(ln, extra, reward, pi, prefill).finite(),
{
    lemma_extremes();
}

/// The dearer of two candidates is not chosen.
proof fn lemma_not_chosen(costs: Seq<Real>, high: int, low: int)
    requires
        0 <= high < costs.len(),
        0 <= low < costs.len(),
        costs[low].below(costs[high]),
        forall|i: int| 0 <= i < costs.len() ==> !(#[trigger] costs[i]).is_nan(),
    ensures
        lowest_number(costs) != high,
        lowest(costs) != high,
{
    lowest_number_is_minimal(costs);
    lowest_is_minimal(costs);
    rank_extends_order(costs[low], costs[high]);
}

/// Of two decode candidates with the same service time, queue and place, both on the prefill
/// backend or both elsewhere, the log-costs differ by the logarithms of what their warmth leaves
/// of a cost. The one whose strength is larger by `2^-18` or more is strictly cheaper, so the
/// colder one is never chosen. Where nothing is a penalty, both have to be hits.
pub proof fn warmer_decode_is_chosen_first<F: Fn(Real) -> Real, G: Fn(Real) -> Real>(
    ctx: PlacementView,
    pool: Seq<BackendState>,
    strengths: Seq<Option<Real>>,
    extra: Seq<Real>,
    pi: Real,
    ln: F,
    exp: G,
    colder: int,
    warmer: int,
)
    requires
        separates(ln),
        !pi.is_nan(),
        0 <= colder < pool.len(),
        0 <= warmer < pool.len(),
        strengths.len() == pool.len(),
        pool[colder].base == pool[warmer].base,
        pool[colder].observed == pool[warmer].observed,
        pool[colder].inflight == pool[warmer].inflight,
        pool[colder].place == pool[warmer].place,
        (pool[colder].label == ctx.prefill_label) == (pool[warmer].label == ctx.prefill_label),
        pool[colder].inflight < HIDDEN_BIT,
        forall|i: int| 0 <= i < extra.len() ==> is_penalty(#[trigger] extra[i]),
        extra.len() < 1000,
        warmth_of(strengths[colder]) + pow2(1056) <= warmth_of(strengths[warmer]),
        extra.len() > 0 || pool[colder].label != ctx.prefill_label || warmth_of(strengths[colder])
            > 0,
    ensures
        ({
            let costs = decode_logs(ctx, pool, Some(strengths), extra, pi, ln, exp);
            &&& apart(
                costs[colder].value() - costs[warmer].value(),
                value_at(ln, warmth_share(strengths[colder])).value() - value_at(
                    ln,
                    warmth_share(strengths[warmer]),
                ).value(),
            ) <= pow2(1051)
            &&& costs[warmer].value() + pow2(1052) <= costs[colder].value()
            &&& costs[warmer].below(costs[colder])
            &&& lowest_number(costs) != colder
            &&& lowest(costs) != colder
        }),
{
    let costs = decode_logs(ctx, pool, Some(strengths), extra, pi, ln, exp);
    let a = pool[colder];
    let b = pool[warmer];
    let pa = decode_penalties(ctx, a, extra, ln, exp);
    assert(decode_penalties(ctx, b, extra, ln, exp) == pa);
    lemma_extremes();
    assert forall|i: int| 0 <= i < pa.len() implies is_penalty(#[trigger] pa[i]) by {
        if i < extra.len() {
            assert(is_penalty(extra[i]));
        }
    }
    lemma_warmer_cost(a, b, ln, pa, strengths[colder], strengths[warmer], pi, false);
    assert forall|i: int| 0 <= i < costs.len() implies !(#[trigger] costs[i]).is_nan() by {
        lemma_cost_is_a_number(
            pool[i],
            ln,
            decode_penalties(ctx, pool[i], extra, ln, exp),
            warmth_reward(strengths[i]),
            pi,
            false,
        );
    }
    lemma_not_chosen(costs, colder, warmer);
}

/// Of two prefill candidates with the same service time and queue the one whose strength is larger
/// by `2^-18` or more is strictly cheaper by the logarithm of what its warmth leaves of a cost, so
/// the colder one is never chosen. Without penalties both have to be hits.
pub proof fn warmer_prefill_is_chosen_first<F: Fn(Real) -> Real>(
    pool: Seq<BackendState>,
    strengths: Seq<Option<Real>>,
    extra: Seq<Real>,
    pi: Real,
    prefill: bool,
    ln: F,
    colder: int,
    warmer: int,
)
    requires
        separates(ln),
        !pi.is_nan(),
        0 <= colder < pool.len(),
        0 <= warmer < pool.len(),
        strengths.len() == pool.len(),
        pool[colder].base == pool[warmer].base,
        pool[colder].observed == pool[warmer].observed,
        pool[colder].inflight == pool[warmer].inflight,
        pool[colder].inflight < HIDDEN_BIT,
        forall|i: int| 0 <= i < extra.len() ==> is_penalty(#[trigger] extra[i]),
        extra.len() < 1000,
        warmth_of(strengths[colder]) + pow2(1056) <= warmth_of(strengths[warmer]),
        extra.len() > 0 || warmth_of(strengths[colder]) > 0,
    ensures
        ({
            let costs = warmth_logs(pool, ln, extra, strengths, pi, prefill);
            &&& apart(
                costs[colder].value() - costs[warmer].value(),
                value_at(ln, warmth_share(strengths[colder])).value() - value_at(
                    ln,
                    warmth_share(strengths[warmer]),
                ).value(),
            ) <= pow2(1051)
            &&& costs[warmer].value() + pow2(1052) <= costs[colder].value()
            &&& costs[warmer].below(costs[colder])
            &&& lowest_number(costs) != colder
            &&& lowest(costs) != colder
        }),
{
    let costs = warmth_logs(pool, ln, extra, strengths, pi, prefill);
    lemma_warmer_cost(
        pool[colder],
        pool[warmer],
        ln,
        extra,
        strengths[colder],
        strengths[warmer],
        pi,
        prefill,
    );
    assert forall|i: int| 0 <= i < costs.len() implies !(#[trigger] costs[i]).is_nan() by {
        lemma_cost_is_a_number(pool[i], ln, extra, warmth_reward(strengths[i]), pi, prefill);
    }
    lemma_not_chosen(costs, colder, warmer);
}

/// The share of a pool in numbers: the prefill share for the prefill pool and what it leaves for
/// the decode pool, but never less than a twentieth.
pub proof fn pool_share_in_numbers(pi: Real, prefill: bool)
    requires
        pi.finite(),
        0 <= pi.value() <= pow2(1074),
    ensures
        ({
            let part = if prefill {
                pi.value()
            } else {
                pow2(1074) - pi.value()
            };
            let share = pool_share(pi, prefill).value();
            &&& 20 * part >= pow2(1074) + pow2(1026) ==> apart(share, part) <= pow2(1021)
            &&& 20 * part <= pow2(1074) + pow2(1026) ==> apart(20 * share, pow2(1074) as int)
                <= pow2(1027)
        }),
{
    lemma_one_value();
    lemma_pow2_pos(1074);
    lemma_pow2_pos(1021);
    lemma_pow2_unfold(1075);
    lemma_value_order(pi, zero());
    assert(units(0) == 0) by (nonlinear_arith);
    let n = negation(pi);
    assert(n.finite() && n.value() == -pi.value());
    lemma_sum_error(one(), n, 1075);
    lemma2_to64();
    lemma2_to64_rest();
    let floor = Real { bits: POOL_SHARE_FLOOR_BITS };
    let z = pow2(1017);
    lemma_pow2_adds(57, 1017);
    lemma_pow2_adds(4, 1017);
    lemma_pow2_adds(9, 1017);
    lemma_pow2_adds(10, 1017);
    assert(crate::binary64::significand(POOL_SHARE_FLOOR_BITS) == 0x19_9999_9999_999a);
    assert(crate::binary64::shift(POOL_SHARE_FLOOR_BITS) == 1017);
    assert(floor.value() == 0x19_9999_9999_999a * z);
}

/// Scaling by a pool share in numbers: twice the scaled time times the share is the time itself, up
/// to one part in `2^46` of the power of two above it.
pub proof fn scaled_in_numbers(base: Real, pi: Real, prefill: bool, k: nat)
    requires
        !pi.is_nan(),
        base.finite(),
        !base.negative(),
        base.value() < pow2(k),
        54 <= k <= 1800,
    ensures
        scaled(base, pi, prefill).finite(),
        !scaled(base, pi, prefill).negative(),
        apart(
            2 * scaled(base, pi, prefill).value() * pool_share(pi, prefill).value(),
            base.value() * pow2(1074),
        ) <= pool_share(pi, prefill).value() * pow2((k - 47) as nat),
{
    let half = Real { bits: HALF_BITS };
    let share = pool_share(pi, prefill);
    let q = quotient(half, share);
    share_scale_is_bounded(pi, prefill);
    let one_units = pow2(1074);
    lemma_pow2_pos(1074);
    lemma_pow2_pos(1073);
    lemma_pow2_pos(1069);
    lemma_pow2_unfold(1074);
    lemma_units_of_power(1073);
    assert(units(0) == 0) by (nonlinear_arith);
    let (b, s, f) = (base.value() as nat, share.value() as nat, q.value() as nat);
    let n = pow2(1073) * one_units;
    lemma_value_order(zero(), share);
    assert(f == units(nearest(n, s)));
    lemma_pow2_adds(1073, 1074);
    lemma_pow2_adds(1079, 1069);
    lemma_pow2_strictly_increases(2147, 2148);
    assert(n < pow2(1079) * s) by (nonlinear_arith)
        requires
            n < pow2(1079) * pow2(1069),
            pow2(1069) <= s,
    ;
    lemma_ratio_error(n, s, 1079);
    let j = (k + 5) as nat;
    lemma_pow2_adds(5, 1074);
    lemma_pow2_adds(k, 1079);
    lemma_pow2_adds(j, 1074);
    lemma_pow2_strictly_increases(1078, 1079);
    lemma_pow2_pos(k);
    assert(b * f < pow2(j) * one_units) by (nonlinear_arith)
        requires
            0 <= b < pow2(k),
            f < pow2(1079),
            pow2(k) * pow2(1079) == pow2(j) * one_units,
    ;
    lemma_ratio_error(b * f, one_units, j);
    let r = nearest(b * f, one_units);
    assert(scaled(base, pi, prefill) == signed(false, r));
    let e = pow2((k - 49) as nat);
    lemma_pow2_pos((k - 49) as nat);
    lemma_pow2_unfold((k - 48) as nat);
    lemma_pow2_unfold((k - 47) as nat);
    lemma_pow2_adds((k - 49) as nat, 1074);
    lemma_pow2_adds(k, 1025);
    let h = pow2(1025);
    lemma_pow2_pos(1025);
    assert(2 * n == one_units * one_units) by (nonlinear_arith)
        requires
            n == pow2(1073) * one_units,
            one_units == 2 * pow2(1073),
    ;
    lemma_scaled_error(
        units(r) as int,
        b as int,
        f as int,
        s as int,
        one_units as int,
        n as int,
        e as int,
        h as int,
        pow2(k) as int,
    );
}

proof fn lemma_scaled_error(
    r: int,
    b: int,
    f: int,
    s: int,
    k: int,
    n: int,
    e: int,
    h: int,
    m: int,
)
    requires
        0 < k,
        0 <= s,
        0 <= b < m,
        0 < h,
        0 < e,
        2 * n == k * k,
        f * s - n <= s * h,
        n - f * s <= s * h,
        r * k - b * f <= k * e,
        b * f - r * k <= k * e,
        m * h == e * k,
    ensures
        2 * r * s - b * k <= s * (4 * e),
        b * k - 2 * r * s <= s * (4 * e),
{
    assert(b * (s * h) <= (e * k) * s) by (nonlinear_arith)
        requires
            0 <= b < m,
            0 <= s,
            0 < h,
            m * h == e * k,
    ;
    assert(b * (f * s) - b * n <= (e * k) * s) by (nonlinear_arith)
        requires
            f * s - n <= s * h,
            0 <= b,
            b * (s * h) <= (e * k) * s,
    ;
    assert(b * n - b * (f * s) <= (e * k) * s) by (nonlinear_arith)
        requires
            n - f * s <= s * h,
            0 <= b,
            b * (s * h) <= (e * k) * s,
    ;
    assert((r * k) * s - (b * f) * s <= (e * k) * s && (b * f) * s - (r * k) * s <= (e * k) * s)
        by (nonlinear_arith)
        requires
            r * k - b * f <= k * e,
            b * f - r * k <= k * e,
            0 <= s,
    ;
    assert(b * (f * s) == (b * f) * s) by (nonlinear_arith);
    assert(2 * (b * n) == (b * k) * k) by (nonlinear_arith)
        requires
            2 * n == k * k,
    ;
    assert(2 * ((r * k) * s) == (2 * r * s) * k) by (nonlinear_arith);
    let x = (e * k) * s;
    assert(4 * x == (s * (4 * e)) * k) by (nonlinear_arith)
        requires
            x == (e * k) * s,
    ;
    assert(2 * r * s - b * k <= s * (4 * e)) by (nonlinear_arith)
        requires
            (2 * r * s) * k - (b * k) * k <= (s * (4 * e)) * k,
            k > 0,
    ;
    assert(b * k - 2 * r * s <= s * (4 * e)) by (nonlinear_arith)
        requires
            (b * k) * k - (2 * r * s) * k <= (s * (4 * e)) * k,
            k > 0,
    ;
}

/// A backend that has more in flight than its twin is not chosen, in either pool, with any
/// penalties.
pub proof fn busier_is_not_chosen<F: Fn(Real) -> Real>(
    pool: Seq<BackendState>,
    ln: F,
    extra: Seq<Real>,
    pi: Real,
    prefill: bool,
    idler: int,
    busier: int,
)
    requires
        separates(ln),
        !pi.is_nan(),
        0 <= idler < pool.len(),
        0 <= busier < pool.len(),
        pool[idler].base == pool[busier].base,
        pool[idler].observed == pool[busier].observed,
        pool[idler].inflight < pool[busier].inflight < HIDDEN_BIT,
        pool[idler].inflight + 1 <= 0x10_0000 * (pool[busier].inflight - pool[idler].inflight),
        forall|i: int| 0 <= i < extra.len() ==> is_penalty(#[trigger] extra[i]),
        extra.len() <= 1000,
    ensures
        lowest(barrier_logs(pool, ln, extra, pi, prefill)) != busier,
{
    let costs = barrier_logs(pool, ln, extra, pi, prefill);
    busier_costs_more(pool[idler], pool[busier], ln, extra, None, pi, prefill);
    assert forall|i: int|
        #![trigger pool[i]]
        0 <= i < pool.len() && (i == idler || i == busier) implies costs[i] == pool[i].cost_log(ln, extra, None, pi, prefill) by {
        lemma_plain_is_finite(pool[i], ln, pi, prefill);
        if extra.len() == 0 {
            assert(extra =~= Seq::empty());
        }
    }
    lowest_is_minimal(costs);
    assert(pool[idler] == pool[idler] && pool[busier] == pool[busier]);
    rank_extends_order(costs[idler], costs[busier]);
}

/// By its queue alone a backend has a finite log-cost.
pub proof fn lemma_plain_is_finite<F: Fn(Real) -> Real>(
    b: BackendState,
    ln: F,
    pi: Real,
    prefill: bool,
)
    requires
        is_logarithm(ln),
        !pi.is_nan(),
    ensures
        b.plain_log(ln, pi, prefill).finite(),
{
    let n = b.inflight as nat;
    lemma_extremes();
    share_scale_is_bounded(pi, prefill);
    lemma_queue(n, n);
    lemma_value_order(zero(), one());
    lemma_value_order(zero(), b.queue());
    let x = value_at(ln, b.priced());
    let y = value_at(ln, scaled(one(), pi, prefill));
    let z = value_at(ln, b.queue());
    assert(is_core(b.priced()));
    assert(is_log_sized(x) && is_log_sized(y) && is_log_sized(z));
    lemma_pow2_adds(10, 1084);
    lemma_pow2_adds(44, 1040);
    lemma_pow2_pos(1040);
    lemma_pow2_pos(1084);
    lemma2_to64();
    lemma2_to64_rest();
    lemma_sum_error(x, y, 1094);
    lemma_sum_error(sum(x, y), z, 1094);
}

/// A time under a weight of so many tenths.
proof fn lemma_weighted_time(w: Real, x: Real, tenths: int, k: nat)
    requires
        w.finite(),
        !w.negative(),
        w.value() <= pow2(1074),
        x.finite(),
        !x.negative(),
        x.value() < pow2(k),
        54 <= k <= 1800,
        apart(10 * w.value(), tenths * pow2(1074)) <= pow2(1025),
    ensures
        product(w, x).finite(),
        !product(w, x).negative(),
        apart(10 * product(w, x).value(), tenths * x.value()) <= pow2((k - 48) as nat),
        product(w, x).value() <= x.value() + pow2((k - 54) as nat),
{
    let one_units = pow2(1074);
    lemma_pow2_pos(1074);
    let (a, b) = (w.value() as nat, x.value() as nat);
    let n = a * b;
    assert(n < pow2(k) * one_units) by (nonlinear_arith)
        requires
            n == a * b,
            a <= one_units,
            b < pow2(k),
            one_units > 0,
    ;
    lemma_ratio_error(n, one_units, k);
    let e = pow2((k - 54) as nat) as int;
    lemma_pow2_adds((k - 54) as nat, 5);
    lemma_pow2_adds((k - 54) as nat, 6);
    lemma_pow2_adds((k - 54) as nat, 1079);
    lemma_pow2_adds(k, 1025);
    lemma_pow2_adds(5, 1074);
    lemma_pow2_pos((k - 54) as nat);
    lemma2_to64();
    lemma_pow2_pos(1025);
    let p = units(nearest(n, one_units)) as int;
    lemma_weighted_error(
        p,
        a as int,
        b as int,
        one_units as int,
        tenths,
        e,
        pow2(1025) as int,
        pow2(k) as int,
    );
}

proof fn lemma_weighted_error(
    p: int,
    a: int,
    b: int,
    k: int,
    tenths: int,
    e: int,
    h: int,
    m: int,
)
    requires
        0 < k,
        0 <= a <= k,
        0 <= b < m,
        0 < e,
        0 < h,
        p * k - a * b <= k * e,
        a * b - p * k <= k * e,
        10 * a - tenths * k <= h,
        tenths * k - 10 * a <= h,
        m * h == e * (32 * k),
    ensures
        10 * p - tenths * b <= 64 * e,
        tenths * b - 10 * p <= 64 * e,
        p <= b + e,
{
    assert(b * h <= 32 * (e * k)) by (nonlinear_arith)
        requires
            0 <= b < m,
            0 < h,
            m * h == e * (32 * k),
    ;
    assert(10 * (a * b) - (tenths * b) * k <= b * h) by (nonlinear_arith)
        requires
            10 * a - tenths * k <= h,
            0 <= b,
    ;
    assert((tenths * b) * k - 10 * (a * b) <= b * h) by (nonlinear_arith)
        requires
            tenths * k - 10 * a <= h,
            0 <= b,
    ;
    assert(10 * p - tenths * b <= 64 * e) by (nonlinear_arith)
        requires
            10 * (p * k) - (tenths * b) * k <= 10 * (k * e) + 32 * (e * k),
            k > 0,
            e > 0,
    ;
    assert(tenths * b - 10 * p <= 64 * e) by (nonlinear_arith)
        requires
            (tenths * b) * k - 10 * (p * k) <= 10 * (k * e) + 32 * (e * k),
            k > 0,
            e > 0,
    ;
    assert(a * b <= k * b) by (nonlinear_arith)
        requires
            a <= k,
            b >= 0,
    ;
    assert(p <= b + e) by (nonlinear_arith)
        requires
            p * k <= k * b + k * e,
            k > 0,
    ;
}

/// The moving average in numbers: a usable measurement counts two tenths and what was known
/// before eight tenths, up to one part in `2^44` of the power of two above both; the first one is
/// taken as it is, and nothing else about the backend changes.
pub proof fn measurement_in_numbers(b: BackendState, secs: Real, k: nat)
    requires
        is_core(secs),
        b.observed.finite(),
        !b.observed.negative(),
        secs.value() < pow2(k),
        b.observed.value() < pow2(k),
        54 <= k <= 1700,
    ensures
        b.observed.bits == 0 ==> b.after_measurement(secs).observed == secs,
        b.observed.bits != 0 ==> apart(
            10 * b.after_measurement(secs).observed.value(),
            2 * secs.value() + 8 * b.observed.value(),
        ) <= pow2((k - 44) as nat),
        b.after_measurement(secs) == (BackendState {
            observed: b.after_measurement(secs).observed,
            ..b
        }),
{
    let alpha = Real { bits: ROUTING_OBSERVED_LATENCY_EWMA_ALPHA_BITS };
    let rest = difference(one(), alpha);
    lemma2_to64();
    lemma2_to64_rest();
    lemma_one_value();
    let z = pow2(1019);
    lemma_pow2_pos(1019);
    lemma_pow2_adds(55, 1019);
    lemma_pow2_adds(2, 1019);
    lemma_pow2_adds(6, 1019);
    lemma_pow2_unfold(1075);
    assert(crate::binary64::significand(ROUTING_OBSERVED_LATENCY_EWMA_ALPHA_BITS)
        == 0x19_9999_9999_999a);
    assert(crate::binary64::shift(ROUTING_OBSERVED_LATENCY_EWMA_ALPHA_BITS) == 1019);
    assert(alpha.value() == 0x19_9999_9999_999a * z);
    assert(negation(alpha).value() == -alpha.value());
    lemma_sum_error(one(), negation(alpha), 1075);
    lemma_value_order(rest, zero());
    assert(units(0) == 0) by (nonlinear_arith);
    lemma_value_order(secs, zero());
    lemma_weighted_time(alpha, secs, 2, k);
    lemma_weighted_time(rest, b.observed, 8, k);
    let (p, q) = (product(alpha, secs), product(rest, b.observed));
    lemma_pow2_strictly_increases((k - 54) as nat, k);
    lemma_pow2_unfold((k + 1) as nat);
    lemma_pow2_unfold((k + 2) as nat);
    lemma_sum_error(p, q, (k + 2) as nat);
    lemma_pow2_adds((k - 52) as nat, 4);
    lemma_pow2_adds((k - 52) as nat, 8);
    lemma_pow2_pos((k - 52) as nat);
}

/// The penalty for memory pressure in numbers: times the free part of the capacity it is the
/// capacity, up to one part in `2^40`, while less than 998 parts in a thousand are taken.
pub proof fn memory_penalty_in_numbers(reserved: nat, capacity: nat)
    requires
        0 < capacity < HIDDEN_BIT,
        1000 * reserved <= 998 * capacity,
    ensures
        apart(
            phi_penalty(reserved, capacity).value() * (capacity - reserved),
            capacity as int * pow2(1074),
        ) <= capacity * pow2(1034),
{
    let k = pow2(1074) as int;
    lemma_pow2_pos(1074);
    lemma_one_value();
    lemma_count_is_exact(reserved);
    lemma_count_is_exact(capacity);
    assert(units(0) == 0) by (nonlinear_arith);
    let (r, c) = (reserved as int, capacity as int);
    assert(0 <= r * k <= c * k && c * k > 0) by (nonlinear_arith)
        requires
            0 <= r <= c,
            c > 0,
            k > 0,
    ;
    lemma_part(of_nat(reserved), of_nat(capacity));
    let ratio = quotient(of_nat(reserved), of_nat(capacity));
    let u = ratio.value();
    let h = pow2(1021) as int;
    assert(u * c - r * k <= c * h && r * k - u * c <= c * h) by (nonlinear_arith)
        requires
            u * (c * k) - (r * k) * k <= (c * k) * h,
            (r * k) * k - u * (c * k) <= (c * k) * h,
            k > 0,
    ;
    lemma2_to64();
    lemma2_to64_rest();
    lemma_pow2_adds(53, 1021);
    lemma_pow2_adds(13, 1021);
    lemma_pow2_adds(43, 1021);
    lemma_pow2_pos(1021);
    assert(1000 * u <= 998 * k + 1000 * h) by (nonlinear_arith)
        requires
            u * c - r * k <= c * h,
            1000 * r <= 998 * c,
            c > 0,
            k > 0,
    ;
    let cap = Real { bits: PHI_MAX_UTILISATION_BITS };
    assert(crate::binary64::significand(PHI_MAX_UTILISATION_BITS) == 0x1f_f7ce_d916_872b);
    assert(crate::binary64::shift(PHI_MAX_UTILISATION_BITS) == 1021);
    assert(cap.value() == 0x1f_f7ce_d916_872b * h);
    assert(utilisation(reserved, capacity) == ratio);
    let n = negation(ratio);
    lemma_value_order(ratio, zero());
    assert(n.finite() && n.value() == -u);
    lemma_pow2_unfold(1075);
    lemma_sum_error(one(), n, 1075);
    let free = difference(one(), ratio);
    let f = free.value();
    assert(f - (k - u) <= h && (k - u) - f <= h);
    assert(f >= pow2(1064));
    assert(f <= k) by {
        lemma_sum_value(one(), n);
        let y = (k - u) as nat;
        lemma_nearest_bound(y, 1, ONE_BITS);
        if nearest(y, 1) < ONE_BITS {
            lemma_units_increase(nearest(y, 1), ONE_BITS);
        }
    }
    lemma_pow2_pos(1064);
    lemma_value_order(free, zero());
    let d = f as nat;
    let m = pow2(1074) * pow2(1074);
    lemma_pow2_adds(1074, 1074);
    lemma_pow2_adds(1085, 1064);
    lemma_pow2_strictly_increases(2148, 2149);
    assert(m < pow2(1085) * d) by (nonlinear_arith)
        requires
            m < pow2(1085) * pow2(1064),
            pow2(1064) <= d,
    ;
    lemma_ratio_error(m, d, 1085);
    let phi = phi_penalty(reserved, capacity);
    assert(phi == signed(false, nearest(m, d)));
    let v = phi.value();
    // v * f is one times one up to f * 2^1031, and f * c is (c - r) times one up to 2 * c * h.
    lemma_pow2_adds(10, 1021);
    lemma_pow2_adds(11, 1074);
    lemma_memory_penalty(v, f, u, r, c, k, h);
}

proof fn lemma_memory_penalty(v: int, f: int, u: int, r: int, c: int, k: int, h: int)
    requires
        0 < k,
        0 < h,
        0 <= r <= c,
        0 < f <= k,
        0 <= v,
        c > 0,
        k == 0x20_0000_0000_0000 * h,
        0x400 * f >= k,
        v * f - k * k <= f * (0x400 * h),
        k * k - v * f <= f * (0x400 * h),
        f - (k - u) <= h,
        (k - u) - f <= h,
        u * c - r * k <= c * h,
        r * k - u * c <= c * h,
    ensures
        v * (c - r) - c * k <= c * (0x2000 * h),
        c * k - v * (c - r) <= c * (0x2000 * h),
{
    let g = c - r;
    assert(g * k - f * c <= 2 * (c * h) && f * c - g * k <= 2 * (c * h)) by (nonlinear_arith)
        requires
            g == c - r,
            f - (k - u) <= h,
            (k - u) - f <= h,
            u * c - r * k <= c * h,
            r * k - u * c <= c * h,
            c > 0,
    ;
    assert(v <= 0x401 * k) by (nonlinear_arith)
        requires
            v * f - k * k <= f * (0x400 * h),
            0x400 * f >= k,
            k == 0x20_0000_0000_0000 * h,
            f > 0,
            k > 0,
            h > 0,
    ;
    assert(v * (g * k) - v * (f * c) <= (0x401 * k) * (2 * (c * h)) && v * (f * c) - v * (g * k) <= (
    0x401 * k) * (2 * (c * h))) by (nonlinear_arith)
        requires
            g * k - f * c <= 2 * (c * h),
            f * c - g * k <= 2 * (c * h),
            0 <= v <= 0x401 * k,
            c * h >= 0,
    {
        assert(c * h >= 0);
    }
    let w = c * (0x400 * h);
    assert((v * f) * c - (k * k) * c <= k * w && (k * k) * c - (v * f) * c <= k * w)
        by (nonlinear_arith)
        requires
            v * f - k * k <= f * (0x400 * h),
            k * k - v * f <= f * (0x400 * h),
            0 < f <= k,
            c > 0,
            h > 0,
            w == c * (0x400 * h),
    ;
    assert(v * (f * c) == (v * f) * c && v * (g * k) == (v * g) * k && (k * k) * c == (c * k) * k)
        by (nonlinear_arith);
    assert((0x401 * k) * (2 * (c * h)) == 0x802 * ((c * h) * k)) by (nonlinear_arith);
    assert(k * w == 0x400 * ((c * h) * k)) by (nonlinear_arith)
        requires
            w == c * (0x400 * h),
    ;
    assert(c * (0x2000 * h) == 0x2000 * (c * h)) by (nonlinear_arith);
    assert(v * g - c * k <= 0x2000 * (c * h)) by (nonlinear_arith)
        requires
            (v * g) * k - (c * k) * k <= 0xc02 * ((c * h) * k),
            k > 0,
            c > 0,
            h > 0,
    ;
    assert(c * k - v * g <= 0x2000 * (c * h)) by (nonlinear_arith)
        requires
            (c * k) * k - (v * g) * k <= 0xc02 * ((c * h) * k),
            k > 0,
            c > 0,
            h > 0,
    ;
}

/// The time that counts is the longer of a usable claim and a finite measurement, and is one of the
/// two; an unusable claim counts as the longest. The time whose logarithm enters the cost is off
/// that by less than `2^-52`.
pub proof fn effective_time_is_the_longer(b: BackendState)
    ensures
        is_core(b.effective()),
        is_core(b.base) ==> b.base.at_most(b.effective()),
        is_core(b.base) ==> b.effective() == b.base || b.effective() == b.observed,
        !is_core(b.base) ==> b.effective() == most_expensive(),
        b.observed.bits != 0 && b.observed.finite() ==> b.observed.at_most(b.effective()),
        is_core(b.priced()),
        apart(b.priced().value(), b.effective().value()) < pow2(1022),
{
    lemma_extremes();
    lemma_pow2_pos(1022);
    if b.observed.finite() {
        lemma_value_order(most_expensive(), b.observed);
    }
    if is_core(b.base) && b.priced() != b.effective() {
        let e = b.effective();
        let n = negation(b.base);
        assert(units(0) == 0) by (nonlinear_arith);
        assert(n.finite() && n.value() == -b.base.value());
        lemma_sum_value(e, n);
        let d = (e.value() - b.base.value()) as nat;
        lemma_units_of_power(1022);
        assert(units(EPSILON_BITS) == pow2(1022));
        lemma_nearest_bound(d, 1, EPSILON_BITS);
        let x = sum(e, n);
        lemma_value_order(absolute(x), Real { bits: EPSILON_BITS });
        if d >= pow2(1022) {
            assert(nearest(d, 1) >= EPSILON_BITS);
        }
    }
}

/// A full or overfull memory is a thousandfold penalty, up to one; memory that is not there at all
/// is the highest penalty.
pub proof fn full_memory_in_numbers(reserved: nat, capacity: nat)
    requires
        capacity <= reserved < HIDDEN_BIT,
    ensures
        capacity == 0 ==> phi_factor(reserved, capacity) == most_expensive(),
        capacity > 0 ==> apart(
            phi_factor(reserved, capacity).value(),
            1000int * pow2(1074),
        ) <= pow2(1074),
{
    if capacity > 0 {
        let k = pow2(1074) as int;
        let h = pow2(1021) as int;
        lemma_pow2_pos(1074);
        lemma_pow2_pos(1021);
        lemma_one_value();
        lemma_count_is_exact(reserved);
        lemma_count_is_exact(capacity);
        lemma2_to64();
        lemma2_to64_rest();
        lemma_pow2_adds(53, 1021);
        lemma_pow2_adds(43, 1021);
        lemma_pow2_adds(10, 1021);
        lemma_pow2_unfold(1075);
        assert(units(0) == 0) by (nonlinear_arith);
        let (r, c) = (of_nat(reserved).value() as nat, of_nat(capacity).value() as nat);
        assert(c <= r && c > 0) by (nonlinear_arith)
            requires
                r == reserved * pow2(1074),
                c == capacity * pow2(1074),
                0 < capacity <= reserved,
                pow2(1074) > 0,
        ;
        let ratio = quotient(of_nat(reserved), of_nat(capacity));
        assert(r * pow2(1074) >= pow2(1074) * c) by (nonlinear_arith)
            requires
                c <= r,
        ;
        lemma_nearest_bound(r * pow2(1074), c, ONE_BITS);
        lemma_nearest_range(r * pow2(1074), c);
        lemma_value_order(of_nat(capacity), zero());
        lemma_value_order(one(), ratio);
        lemma_value_order(ratio, one());
        let cap = Real { bits: PHI_MAX_UTILISATION_BITS };
        assert(crate::binary64::significand(PHI_MAX_UTILISATION_BITS) == 0x1f_f7ce_d916_872b);
        assert(crate::binary64::shift(PHI_MAX_UTILISATION_BITS) == 1021);
        assert(cap.value() == 0x1f_f7ce_d916_872b * h);
        assert(one().at_most(ratio));
        assert(utilisation(reserved, capacity) == cap);
        let n = negation(cap);
        assert(n.finite() && n.value() == -cap.value());
        lemma_sum_error(one(), n, 1075);
        let free = difference(one(), cap);
        let f = free.value();
        lemma_value_order(free, zero());
        let d = f as nat;
        let m = pow2(1074) * pow2(1074);
        lemma_pow2_adds(1074, 1074);
        lemma_pow2_adds(1085, 1064);
        lemma_pow2_strictly_increases(2148, 2149);
        assert(m < pow2(1085) * d) by (nonlinear_arith)
            requires
                m < pow2(1085) * pow2(1064),
                pow2(1064) <= d,
        ;
        lemma_ratio_error(m, d, 1085);
        let v = units(nearest(m, d)) as int;
        assert(phi_factor(reserved, capacity).value() == v);
        assert(v <= 1001 * k && v >= 999 * k) by (nonlinear_arith)
            requires
                v * f - k * k <= f * (0x400 * h),
                k * k - v * f <= f * (0x400 * h),
                k == 0x20_0000_0000_0000 * h,
                9_007_199_254_740 * h <= f <= 9_007_199_254_742 * h,
                h > 0,
        {
            assert(k * k == (0x20_0000_0000_0000 * h) * k) by (nonlinear_arith)
                requires
                    k == 0x20_0000_0000_0000 * h,
            ;
        }
    }
}

/// The envelope of a learned multiplier reaches from eight to twelve tenths; inside it a value is
/// taken as it is, beyond it the nearer end, and what is not a number counts as one.
pub proof fn envelope_in_numbers(delta: Real)
    ensures
        apart(10 * corrector_floor().value(), 8int * pow2(1074)) <= pow2(1026),
        apart(10 * corrector_ceiling().value(), 12int * pow2(1074)) <= pow2(1026),
        !delta.finite() ==> corrected(delta) == one(),
        delta.finite() && delta.value() < corrector_floor().value() ==> corrected(delta)
            == corrector_floor(),
        delta.finite() && delta.value() > corrector_ceiling().value() ==> corrected(delta)
            == corrector_ceiling(),
        delta.finite() && corrector_floor().value() <= delta.value()
            <= corrector_ceiling().value() ==> corrected(delta) == delta,
{
    lemma2_to64();
    lemma2_to64_rest();
    let z = pow2(1021);
    lemma_pow2_pos(1021);
    lemma_pow2_adds(1, 1021);
    lemma_pow2_adds(5, 1021);
    lemma_pow2_adds(53, 1021);
    assert(crate::binary64::significand(CORRECTOR_FLOOR_BITS) == 0x19_9999_9999_999a);
    assert(crate::binary64::shift(CORRECTOR_FLOOR_BITS) == 1021);
    assert(crate::binary64::significand(CORRECTOR_CEILING_BITS) == 0x13_3333_3333_3333);
    assert(crate::binary64::shift(CORRECTOR_CEILING_BITS) == 1022);
    assert(corrector_floor().value() == 0x19_9999_9999_999a * z);
    assert(corrector_ceiling().value() == 0x13_3333_3333_3333 * (2 * z));
}

} // verus!
