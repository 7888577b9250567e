//! What the share of a pool says about the pressure on the pools, in numbers.

use vstd::prelude::*;
use vstd::arithmetic::power2::{
    lemma2_to64, lemma2_to64_rest, lemma_pow2_adds, lemma_pow2_pos, lemma_pow2_strictly_increases,
    lemma_pow2_unfold, pow2,
};
use crate::binary64::{
    absolute, adding_never_lowers, difference, lemma_count_is_exact, lemma_nearest_bound,
    lemma_nearest_of_units, lemma_nearest_range, lemma_one_value, lemma_ratio_error,
    lemma_relative_error, lemma_sum_error, lemma_sum_value, lemma_units_increase, lemma_value_order,
    negation, of_nat, one, product, quotient, sum, sum_is_monotone, units, zero, Real, ONE_BITS,
};
use crate::factors::{add_all, apart, exact_sum};
use crate::params::{
    POOL_REBALANCE_HYSTERESIS_BITS, POOL_WEIGHT_KV_BITS, POOL_WEIGHT_QUEUE_BITS,
    POOL_WEIGHT_SLO_BITS,
};
use crate::rcu::share;
use crate::rebalancer::{
    decode_demand, mean, prefill_demand, wanted_share, PoolPressure, RebalancerMode,
    RebalancerState,
};
use crate::rounding::{lemma_nearest_monotone, nearest};

verus! {

/// A signal between zero and one.
pub open spec fn is_signal(x: Real) -> bool {
    x.finite() && 0 <= x.value() <= pow2(1074)
}

/// Every signal lies between zero and one.
pub open spec fn all_signals(s: PoolPressure) -> bool {
    &&& is_signal(s.q_prefill)
    &&& is_signal(s.q_decode)
    &&& is_signal(s.kv_decode)
    &&& is_signal(s.slo_prefill)
    &&& is_signal(s.slo_decode)
    &&& is_signal(s.fp_share)
}

/// The value of a number that is not below zero is that of its magnitude.
pub proof fn lemma_not_below(x: Real)
    requires
        x.finite(),
        x.value() >= 0,
    ensures
        units(x.magnitude()) == x.value(),
        x.negative() ==> x.magnitude() == 0,
{
    lemma_value_order(x, zero());
    assert(units(0) == 0) by (nonlinear_arith);
}

/// The product of two signals.
pub proof fn lemma_product(a: Real, b: Real)
    requires
        is_signal(a),
        is_signal(b),
    ensures
        is_signal(product(a, b)),
        product(a, b).value() == units(
            nearest((a.value() * b.value()) as nat, pow2(1074)),
        ),
        apart(product(a, b).value() * pow2(1074), a.value() * b.value()) <= pow2(1074) * pow2(1021),
{
    let k = pow2(1074);
    lemma_pow2_pos(1074);
    lemma_pow2_unfold(1075);
    lemma_not_below(a);
    lemma_not_below(b);
    lemma_one_value();
    assert(units(0) == 0) by (nonlinear_arith);
    let x = a.value();
    let y = b.value();
    assert(0 <= x * y <= k * k) by (nonlinear_arith)
        requires
            0 <= x <= k,
            0 <= y <= k,
    ;
    assert(k * k < pow2(1075) * k) by (nonlinear_arith)
        requires
            pow2(1075) == 2 * k,
            k > 0,
    ;
    let n = (x * y) as nat;
    assert(units(a.magnitude()) * units(b.magnitude()) == n);
    lemma_ratio_error(n, k, 1075);
    lemma_nearest_bound(n, k, ONE_BITS);
    let m = nearest(n, k);
    if m < ONE_BITS {
        lemma_units_increase(m, ONE_BITS);
    }
    if a.negative() || b.negative() {
        assert(n == 0) by (nonlinear_arith)
            requires
                x == 0 || y == 0,
                n == x * y,
        ;
        lemma_nearest_bound(0, k, 0);
        assert(m == 0);
    }
}

/// The product of larger signals is no smaller.
proof fn lemma_product_rises(a: Real, b: Real, c: Real, d: Real)
    requires
        is_signal(a),
        is_signal(b),
        is_signal(c),
        is_signal(d),
        a.value() <= c.value(),
        b.value() <= d.value(),
    ensures
        product(a, b).value() <= product(c, d).value(),
{
    let k = pow2(1074);
    lemma_pow2_pos(1074);
    lemma_product(a, b);
    lemma_product(c, d);
    let x = (a.value() * b.value()) as nat;
    let y = (c.value() * d.value()) as nat;
    let (p, q, r, s) = (a.value(), b.value(), c.value(), d.value());
    assert(0 <= p * q <= r * s) by (nonlinear_arith)
        requires
            0 <= p <= r,
            0 <= q <= s,
    ;
    assert(x * k <= y * k) by (nonlinear_arith)
        requires
            x <= y,
            k > 0,
    ;
    lemma_nearest_monotone(x, k, y, k);
    lemma_nearest_range(y, k);
    if nearest(x, k) < nearest(y, k) {
        lemma_units_increase(nearest(x, k), nearest(y, k));
    }
}

/// What a signal leaves of one.
pub proof fn lemma_rest(fp: Real)
    requires
        is_signal(fp),
    ensures
        is_signal(difference(one(), fp)),
        apart(difference(one(), fp).value(), pow2(1074) - fp.value()) <= pow2(1021),
{
    lemma_one_value();
    lemma_pow2_pos(1074);
    lemma_pow2_unfold(1075);
    lemma_not_below(fp);
    let n = negation(fp);
    assert(n.finite() && n.value() == -fp.value());
    lemma_sum_error(one(), n, 1075);
    lemma_sum_value(one(), n);
    let v = (pow2(1074) - fp.value()) as nat;
    lemma_nearest_bound(v, 1, ONE_BITS);
    if nearest(v, 1) < ONE_BITS {
        lemma_units_increase(nearest(v, 1), ONE_BITS);
    }
}

/// A number from zero to four.
spec fn is_demand(x: Real) -> bool {
    x.finite() && 0 <= x.value() <= 4 * pow2(1074)
}

/// The sum of two demands.
proof fn lemma_sum(a: Real, b: Real)
    requires
        is_demand(a),
        is_demand(b),
    ensures
        sum(a, b).finite(),
        a.value() <= sum(a, b).value(),
        b.value() <= sum(a, b).value(),
        apart(sum(a, b).value(), a.value() + b.value()) <= pow2(1024),
        a.value() == 0 && b.value() == 0 ==> sum(a, b).value() == 0,
{
    lemma_pow2_pos(1074);
    lemma_pow2_unfold(1075);
    lemma_pow2_unfold(1076);
    lemma_pow2_unfold(1077);
    lemma_pow2_unfold(1078);
    lemma_sum_error(a, b, 1078);
    assert(units(0) == 0) by (nonlinear_arith);
    adding_never_lowers(a, b);
    adding_never_lowers(b, a);
    lemma_sum_value(a, b);
    lemma_sum_value(b, a);
}

/// How far the weights of a double are from tenths.
proof fn lemma_weights()
    ensures
        ({
            let q = Real { bits: POOL_WEIGHT_QUEUE_BITS };
            let kv = Real { bits: POOL_WEIGHT_KV_BITS };
            let slo = Real { bits: POOL_WEIGHT_SLO_BITS };
            &&& is_signal(q) && is_signal(kv) && is_signal(slo)
            &&& 10 * q.value() == 5 * pow2(1074)
            &&& apart(10 * kv.value(), 3int * pow2(1074)) <= pow2(1021)
            &&& apart(10 * slo.value(), 2int * pow2(1074)) <= pow2(1021)
        }),
{
    lemma2_to64();
    lemma2_to64_rest();
    let z = pow2(1019);
    lemma_pow2_pos(1019);
    lemma_pow2_adds(55, 1019);
    lemma_pow2_adds(1, 1019);
    lemma_pow2_adds(2, 1019);
    lemma_pow2_adds(52, 1021);
    lemma_pow2_adds(2, 1019);
    assert(crate::binary64::significand(POOL_WEIGHT_QUEUE_BITS) == 0x10_0000_0000_0000);
    assert(crate::binary64::shift(POOL_WEIGHT_QUEUE_BITS) == 1021);
    assert(crate::binary64::significand(POOL_WEIGHT_KV_BITS) == 0x13_3333_3333_3333);
    assert(crate::binary64::shift(POOL_WEIGHT_KV_BITS) == 1020);
    assert(crate::binary64::significand(POOL_WEIGHT_SLO_BITS) == 0x19_9999_9999_999a);
    assert(crate::binary64::shift(POOL_WEIGHT_SLO_BITS) == 1019);
    assert(pow2(1020) == 2 * z && pow2(1021) == 4 * z && pow2(1074) == 0x80_0000_0000_0000 * z);
    let (a, b) = (0x13_3333_3333_3333int, 0x19_9999_9999_999aint);
    assert(units(POOL_WEIGHT_QUEUE_BITS) == 0x10_0000_0000_0000 * (4 * z));
    assert(units(POOL_WEIGHT_KV_BITS) == a * (2 * z));
    assert(units(POOL_WEIGHT_SLO_BITS) == b * z);
}

/// The rounded quotient of a part and the whole.
pub proof fn lemma_part(p: Real, t: Real)
    requires
        p.finite(),
        t.finite(),
        0 <= p.value() <= t.value(),
        t.value() > 0,
    ensures
        is_signal(share(quotient(p, t))),
        share(quotient(p, t)) == quotient(p, t),
        share(quotient(p, t)).value() == units(
            nearest((p.value() * pow2(1074)) as nat, t.value() as nat),
        ),
        apart(share(quotient(p, t)).value() * t.value(), p.value() * pow2(1074)) <= t.value()
            * pow2(1021),
        p.value() == t.value() ==> share(quotient(p, t)).value() == pow2(1074),
        p.value() == 0 ==> share(quotient(p, t)).value() == 0,
{
    let k = pow2(1074);
    lemma_pow2_pos(1074);
    lemma_pow2_unfold(1075);
    lemma_one_value();
    lemma_not_below(p);
    lemma_not_below(t);
    assert(units(0) == 0) by (nonlinear_arith);
    let x = p.value();
    let d = t.value() as nat;
    assert(0 <= x * k <= k * d) by (nonlinear_arith)
        requires
            0 <= x <= d,
    ;
    assert(k * d < pow2(1075) * d) by (nonlinear_arith)
        requires
            pow2(1075) == 2 * k,
            k > 0,
            d > 0,
    ;
    let n = (x * k) as nat;
    assert(!t.negative() && t.magnitude() > 0);
    lemma_ratio_error(n, d, 1075);
    lemma_nearest_bound(n, d, ONE_BITS);
    lemma_nearest_bound(n, d, 0);
    let m = nearest(n, d);
    if m < ONE_BITS {
        lemma_units_increase(m, ONE_BITS);
    }
    assert(0 * k == 0 && units(0) * d == 0) by (nonlinear_arith)
        requires
            units(0) == 0,
    ;
    let q = quotient(p, t);
    assert(units(p.magnitude()) * k == n);
    assert(q.magnitude() == m);
    if p.negative() {
        assert(m == 0);
    }
    assert(q.value() == units(m));
    assert(share(q) == q);
    if x == d {
        assert(x * k == k * d) by (nonlinear_arith)
            requires
                x == d,
        ;
        assert(m == ONE_BITS);
    }
}

/// A signal under a weight of so many tenths.
proof fn lemma_weighted(w: Real, x: Real, tenths: int)
    requires
        is_signal(w),
        is_signal(x),
        apart(10 * w.value(), tenths * pow2(1074)) <= pow2(1021),
    ensures
        is_signal(product(w, x)),
        apart(10 * product(w, x).value(), tenths * x.value()) <= 11 * pow2(1021),
{
    let k = pow2(1074) as int;
    let h = pow2(1021) as int;
    lemma_pow2_pos(1074);
    lemma_pow2_pos(1021);
    lemma_product(w, x);
    let (p, a, b) = (product(w, x).value(), w.value(), x.value());
    assert(10 * p - tenths * b <= 11 * h) by (nonlinear_arith)
        requires
            p * k - a * b <= k * h,
            10 * a - tenths * k <= h,
            0 <= b <= k,
            k > 0,
            h > 0,
    {
        assert(10 * (a * b) - (tenths * b) * k <= k * h) by (nonlinear_arith)
            requires
                10 * a - tenths * k <= h,
                0 <= b <= k,
                h > 0,
        ;
        assert((10 * p - tenths * b) * k <= (11 * h) * k) by (nonlinear_arith)
            requires
                p * k - a * b <= k * h,
                10 * (a * b) - (tenths * b) * k <= k * h,
        ;
    }
    assert(tenths * b - 10 * p <= 11 * h) by (nonlinear_arith)
        requires
            a * b - p * k <= k * h,
            tenths * k - 10 * a <= h,
            0 <= b <= k,
            k > 0,
            h > 0,
    {
        assert((tenths * b) * k - 10 * (a * b) <= k * h) by (nonlinear_arith)
            requires
                tenths * k - 10 * a <= h,
                0 <= b <= k,
                h > 0,
        ;
        assert((tenths * b - 10 * p) * k <= (11 * h) * k) by (nonlinear_arith)
            requires
                a * b - p * k <= k * h,
                (tenths * b) * k - 10 * (a * b) <= k * h,
        ;
    }
}

/// The pull of the decode signals, in tenths of a smallest unit: five parts queue, three parts KV
/// memory and two parts missed deadlines.
pub open spec fn decode_pull(s: PoolPressure) -> int {
    5 * s.q_decode.value() + 3 * s.kv_decode.value() + 2 * s.slo_decode.value()
}

/// The pull of the prefill signals times one, in the same unit: five parts queue and two parts
/// missed deadlines, the latter only as far as prompts do not take the fast path.
pub open spec fn prefill_pull(s: PoolPressure) -> int {
    5 * s.q_prefill.value() * pow2(1074) + 2 * s.slo_prefill.value() * (pow2(1074)
        - s.fp_share.value())
}

/// What the decode signals ask for, in numbers.
proof fn lemma_decode_demand(s: PoolPressure)
    requires
        all_signals(s),
    ensures
        is_demand(decode_demand(s)),
        apart(10 * decode_demand(s).value(), decode_pull(s)) <= pow2(1029),
{
    lemma_weights();
    let a = product(Real { bits: POOL_WEIGHT_QUEUE_BITS }, s.q_decode);
    let b = product(Real { bits: POOL_WEIGHT_KV_BITS }, s.kv_decode);
    let c = product(Real { bits: POOL_WEIGHT_SLO_BITS }, s.slo_decode);
    lemma_pow2_pos(1021);
    lemma_pow2_pos(1074);
    lemma_weighted(Real { bits: POOL_WEIGHT_QUEUE_BITS }, s.q_decode, 5);
    lemma_weighted(Real { bits: POOL_WEIGHT_KV_BITS }, s.kv_decode, 3);
    lemma_weighted(Real { bits: POOL_WEIGHT_SLO_BITS }, s.slo_decode, 2);
    lemma_pow2_adds(3, 1021);
    lemma_pow2_adds(8, 1021);
    lemma_pow2_adds(50, 1024);
    lemma2_to64();
    lemma2_to64_rest();
    lemma_sum(a, b);
    lemma_sum(sum(a, b), c);
}

/// What the prefill signals ask for, in numbers.
proof fn lemma_prefill_demand(s: PoolPressure)
    requires
        all_signals(s),
    ensures
        is_demand(prefill_demand(s)),
        apart(10 * prefill_demand(s).value() * pow2(1074), prefill_pull(s)) <= pow2(1074) * pow2(
            1028,
        ),
{
    lemma_weights();
    let k = pow2(1074) as int;
    let h = pow2(1021) as int;
    let slo = Real { bits: POOL_WEIGHT_SLO_BITS };
    let a = product(Real { bits: POOL_WEIGHT_QUEUE_BITS }, s.q_prefill);
    let b = product(slo, s.slo_prefill);
    let c = difference(one(), s.fp_share);
    let d = product(b, c);
    lemma_pow2_pos(1021);
    lemma_pow2_pos(1074);
    lemma_weighted(Real { bits: POOL_WEIGHT_QUEUE_BITS }, s.q_prefill, 5);
    lemma_weighted(slo, s.slo_prefill, 2);
    lemma_rest(s.fp_share);
    lemma_product(b, c);
    lemma_pow2_adds(3, 1021);
    lemma_pow2_adds(7, 1021);
    lemma_pow2_adds(50, 1024);
    lemma2_to64();
    lemma2_to64_rest();
    lemma_sum(a, d);
    let (x, y, u, v) = (b.value(), c.value(), s.slo_prefill.value(), k - s.fp_share.value());
    let w = d.value();
    assert(10 * (w * k) - 2 * u * v <= 23 * (k * h) && 2 * u * v - 10 * (w * k) <= 23 * (k * h)) by {
        assert(10 * (x * y) - 2 * (u * y) <= 11 * (k * h) && 2 * (u * y) - 10 * (x * y) <= 11 * (k
            * h)) by (nonlinear_arith)
            requires
                10 * x - 2 * u <= 11 * h,
                2 * u - 10 * x <= 11 * h,
                0 <= y <= k,
                h > 0,
        ;
        assert(u * y - u * v <= k * h && u * v - u * y <= k * h) by (nonlinear_arith)
            requires
                y - v <= h,
                v - y <= h,
                0 <= u <= k,
                h > 0,
        ;
        assert(2 * u * v == 2 * (u * v)) by (nonlinear_arith);
        assert(w * k - x * y <= k * h && x * y - w * k <= k * h);
    }
    let p = prefill_demand(s).value();
    let q = s.q_prefill.value();
    let z = a.value();
    assert(p - (z + w) <= 8 * h && (z + w) - p <= 8 * h);
    assert(10 * p * k - (5 * q * k + 2 * u * v) <= 128 * (k * h) && (5 * q * k + 2 * u * v) - 10 * p
        * k <= 128 * (k * h)) by (nonlinear_arith)
        requires
            p - (z + w) <= 8 * h,
            (z + w) - p <= 8 * h,
            10 * z - 5 * q <= 11 * h,
            5 * q - 10 * z <= 11 * h,
            10 * (w * k) - 2 * u * v <= 23 * (k * h),
            2 * u * v - 10 * (w * k) <= 23 * (k * h),
            k > 0,
            h > 0,
    ;
    assert(k * pow2(1028) == 128 * (k * h)) by (nonlinear_arith)
        requires
            pow2(1028) == 128 * h,
    ;
}

/// A rise in a decode signal (queue, KV memory or missed deadlines) never raises the wanted prefill
/// share, the prefill signals being fixed.
pub proof fn decode_pressure_never_raises(pi: Real, low: PoolPressure, high: PoolPressure)
    requires
        all_signals(low),
        all_signals(high),
        is_signal(pi),
        low.q_prefill == high.q_prefill,
        low.slo_prefill == high.slo_prefill,
        low.fp_share == high.fp_share,
        low.q_decode.value() <= high.q_decode.value(),
        low.kv_decode.value() <= high.kv_decode.value(),
        low.slo_decode.value() <= high.slo_decode.value(),
    ensures
        wanted_share(pi, high).at_most(wanted_share(pi, low)),
{
    lemma_weights();
    lemma_decode_demand(low);
    lemma_decode_demand(high);
    lemma_prefill_demand(low);
    lemma_decode_rises(low, high);
    let p = prefill_demand(low);
    let (d, e) = (decode_demand(low), decode_demand(high));
    lemma_sum(p, d);
    lemma_sum(p, e);
    sum_is_monotone(p, p, d, e);
    let (t, u) = (sum(p, d), sum(p, e));
    assert(units(0) == 0) by (nonlinear_arith);
    if u.value() > 0 {
        lemma_part(p, u);
    }
    if t.value() > 0 {
        lemma_part(p, t);
        let n = (p.value() * pow2(1074)) as nat;
        let (x, y) = (t.value() as nat, u.value() as nat);
        assert(p.value() * pow2(1074) >= 0) by (nonlinear_arith)
            requires
                p.value() >= 0,
        ;
        assert(n * x <= n * y) by (nonlinear_arith)
            requires
                x <= y,
        ;
        lemma_nearest_monotone(n, y, n, x);
        lemma_nearest_range(n, x);
        if nearest(n, y) < nearest(n, x) {
            lemma_units_increase(nearest(n, y), nearest(n, x));
        }
    }
}

proof fn lemma_decode_rises(low: PoolPressure, high: PoolPressure)
    requires
        all_signals(low),
        all_signals(high),
        low.q_decode.value() <= high.q_decode.value(),
        low.kv_decode.value() <= high.kv_decode.value(),
        low.slo_decode.value() <= high.slo_decode.value(),
    ensures
        decode_demand(low).at_most(decode_demand(high)),
{
    lemma_weights();
    lemma_pow2_pos(1074);
    let (q, k, d) = (
        Real { bits: POOL_WEIGHT_QUEUE_BITS },
        Real { bits: POOL_WEIGHT_KV_BITS },
        Real { bits: POOL_WEIGHT_SLO_BITS },
    );
    lemma_product_rises(q, low.q_decode, q, high.q_decode);
    lemma_product_rises(k, low.kv_decode, k, high.kv_decode);
    lemma_product_rises(d, low.slo_decode, d, high.slo_decode);
    lemma_product(q, low.q_decode);
    lemma_product(q, high.q_decode);
    lemma_product(k, low.kv_decode);
    lemma_product(k, high.kv_decode);
    lemma_product(d, low.slo_decode);
    lemma_product(d, high.slo_decode);
    let (a, b) = (product(q, low.q_decode), product(k, low.kv_decode));
    let (x, y) = (product(q, high.q_decode), product(k, high.kv_decode));
    lemma_sum(a, b);
    lemma_sum(x, y);
    sum_is_monotone(a, x, b, y);
    sum_is_monotone(sum(a, b), sum(x, y), product(d, low.slo_decode), product(d, high.slo_decode));
}

proof fn lemma_prefill_rises(low: PoolPressure, high: PoolPressure)
    requires
        all_signals(low),
        all_signals(high),
        low.q_prefill.value() <= high.q_prefill.value(),
        low.slo_prefill.value() <= high.slo_prefill.value(),
        low.fp_share == high.fp_share,
    ensures
        prefill_demand(low).at_most(prefill_demand(high)),
{
    lemma_weights();
    let (q, d) = (Real { bits: POOL_WEIGHT_QUEUE_BITS }, Real { bits: POOL_WEIGHT_SLO_BITS });
    let c = difference(one(), low.fp_share);
    lemma_rest(low.fp_share);
    lemma_product(q, low.q_prefill);
    lemma_product(q, high.q_prefill);
    lemma_product(d, low.slo_prefill);
    lemma_product(d, high.slo_prefill);
    lemma_product_rises(q, low.q_prefill, q, high.q_prefill);
    lemma_product_rises(d, low.slo_prefill, d, high.slo_prefill);
    let (a, b) = (product(d, low.slo_prefill), product(d, high.slo_prefill));
    lemma_product(a, c);
    lemma_product(b, c);
    lemma_product_rises(a, c, b, c);
    sum_is_monotone(
        product(q, low.q_prefill),
        product(q, high.q_prefill),
        product(a, c),
        product(b, c),
    );
}

/// A larger part of the same rest is a larger share, up to what rounding takes: `t` and `u` stand
/// for `p + d` and `q + d` up to one part in `e`.
proof fn lemma_larger_part(p: int, q: int, d: int, t: int, u: int, e: int)
    requires
        0 <= p <= q,
        0 <= d,
        q <= u,
        0 < t,
        0 < u,
        e >= 2,
        e * ((p + d) - t) <= p + d,
        e * (u - (q + d)) <= q + d,
    ensures
        e * (p * u) <= e * (q * t) + 4 * (t * u),
{
    let (s, r) = (p + d, q + d);
    assert(p * r <= q * s) by (nonlinear_arith)
        requires
            s == p + d,
            r == q + d,
            0 <= p <= q,
            0 <= d,
    ;
    assert(e * (p * u) <= (e + 1) * (p * r)) by (nonlinear_arith)
        requires
            e * (u - r) <= r,
            p >= 0,
    ;
    assert((e + 1) * (p * r) <= (e + 1) * (q * s)) by (nonlinear_arith)
        requires
            p * r <= q * s,
            e >= 2,
    ;
    assert((e - 1) * (q * s) <= e * (q * t)) by (nonlinear_arith)
        requires
            e * (s - t) <= s,
            q >= 0,
    ;
    assert(s <= 2 * t) by (nonlinear_arith)
        requires
            e * (s - t) <= s,
            e >= 2,
            s >= 0,
            t > 0,
    ;
    assert(2 * (q * s) <= 4 * (t * u)) by (nonlinear_arith)
        requires
            0 <= q <= u,
            0 <= s <= 2 * t,
    ;
    assert((e + 1) * (q * s) == (e - 1) * (q * s) + 2 * (q * s)) by (nonlinear_arith);
}

/// Two rounded quotients of the parts, compared.
proof fn lemma_larger_share(p: int, q: int, t: int, u: int, x: int, y: int)
    requires
        0 < t,
        0 < u,
        0x20_0000_0000_0000 * (p * u) <= 0x20_0000_0000_0000 * (q * t) + 4 * (t * u),
        x * t - p * pow2(1074) <= t * pow2(1021),
        q * pow2(1074) - y * u <= u * pow2(1021),
    ensures
        x <= y + 6 * pow2(1021),
{
    let h = pow2(1021) as int;
    let k = pow2(1074) as int;
    let e = 0x20_0000_0000_0000int;
    lemma_pow2_adds(53, 1021);
    lemma2_to64_rest();
    lemma_pow2_pos(1021);
    assert(k == e * h);
    let w = t * u;
    assert(w > 0) by (nonlinear_arith)
        requires
            w == t * u,
            t > 0,
            u > 0,
    ;
    // Everything times the product of both wholes.
    assert(x * w <= k * (p * u) + h * w) by (nonlinear_arith)
        requires
            x * t - p * k <= t * h,
            u > 0,
            w == t * u,
    ;
    assert(k * (p * u) <= k * (q * t) + 4 * (h * w)) by (nonlinear_arith)
        requires
            e * (p * u) <= e * (q * t) + 4 * w,
            k == e * h,
            h > 0,
    ;
    assert(k * (q * t) <= y * w + h * w) by (nonlinear_arith)
        requires
            q * k - y * u <= u * h,
            t > 0,
            w == t * u,
    ;
    assert(x <= y + 6 * h) by (nonlinear_arith)
        requires
            x * w <= y * w + h * w + 4 * (h * w) + h * w,
            w > 0,
    ;
}

/// A rise in a prefill signal (queue or missed deadlines) never lowers the wanted prefill share,
/// the other signals being fixed, by more than the rounding of three operations, `2^-50`.
pub proof fn prefill_pressure_never_lowers(pi: Real, low: PoolPressure, high: PoolPressure)
    requires
        all_signals(low),
        all_signals(high),
        is_signal(pi),
        low.q_decode == high.q_decode,
        low.kv_decode == high.kv_decode,
        low.slo_decode == high.slo_decode,
        low.fp_share == high.fp_share,
        low.q_prefill.value() <= high.q_prefill.value(),
        low.slo_prefill.value() <= high.slo_prefill.value(),
    ensures
        wanted_share(pi, low).value() <= wanted_share(pi, high).value() + pow2(1024),
        is_signal(wanted_share(pi, low)),
        is_signal(wanted_share(pi, high)),
{
    lemma_prefill_demand(low);
    lemma_prefill_demand(high);
    lemma_decode_demand(low);
    lemma_prefill_rises(low, high);
    let (p, q) = (prefill_demand(low), prefill_demand(high));
    let d = decode_demand(low);
    lemma_sum(p, d);
    lemma_sum(q, d);
    sum_is_monotone(p, q, d, d);
    let (t, u) = (sum(p, d), sum(q, d));
    assert(units(0) == 0) by (nonlinear_arith);
    lemma_pow2_adds(3, 1021);
    lemma2_to64();
    lemma_pow2_pos(1021);
    lemma_pow2_pos(1074);
    if t.value() > 0 {
        lemma_part(p, t);
        lemma_part(q, u);
        assert(pow2(1074) < pow2(1077) < pow2(1900)) by {
            lemma_pow2_strictly_increases(1074, 1077);
            lemma_pow2_strictly_increases(1077, 1900);
        }
        lemma_pow2_adds(3, 1074);
        lemma_sum_value(p, d);
        lemma_sum_value(q, d);
        lemma_relative_error((p.value() + d.value()) as nat);
        lemma_relative_error((q.value() + d.value()) as nat);
        lemma_larger_part(
            p.value(),
            q.value(),
            d.value(),
            t.value(),
            u.value(),
            0x20_0000_0000_0000,
        );
        lemma_larger_share(
            p.value(),
            q.value(),
            t.value(),
            u.value(),
            wanted_share(pi, low).value(),
            wanted_share(pi, high).value(),
        );
    } else if u.value() > 0 {
        // Only prefill presses, so it gets everything.
        lemma_sum_value(q, d);
        lemma_not_below(q);
        lemma_nearest_of_units(q.magnitude());
        lemma_part(q, u);
    }
}

/// The wanted prefill share is the pull of the prefill signals over the pull of all signals: times
/// the whole pull it misses the prefill pull by at most `2^-42`. Without pressure it stays where it
/// is.
pub proof fn wanted_share_in_numbers(pi: Real, s: PoolPressure)
    requires
        all_signals(s),
        is_signal(pi),
    ensures
        is_signal(wanted_share(pi, s)),
        apart(
            wanted_share(pi, s).value() * (prefill_pull(s) + decode_pull(s) * pow2(1074)),
            prefill_pull(s) * pow2(1074),
        ) <= pow2(1074) * pow2(1074) * pow2(1032),
        s.q_prefill.value() == 0 && s.slo_prefill.value() == 0 && s.q_decode.value() == 0
            && s.kv_decode.value() == 0 && s.slo_decode.value() == 0 ==> wanted_share(pi, s) == pi,
{
    let k = pow2(1074) as int;
    let h = pow2(1021) as int;
    lemma_pow2_pos(1074);
    lemma_pow2_pos(1021);
    lemma_pow2_adds(3, 1021);
    lemma_pow2_adds(7, 1021);
    lemma_pow2_adds(8, 1021);
    lemma_pow2_adds(11, 1021);
    lemma2_to64();
    lemma_prefill_demand(s);
    lemma_decode_demand(s);
    assert(units(0) == 0) by (nonlinear_arith);
    let (p, d) = (prefill_demand(s), decode_demand(s));
    let t = sum(p, d);
    lemma_sum(p, d);
    let r = wanted_share(pi, s).value();
    if t.value() > 0 {
        lemma_part(p, t);
    }
    let (x, y, z) = (p.value(), d.value(), t.value());
    let (a, b) = (prefill_pull(s), decode_pull(s));
    assert(k * pow2(1028) == 128 * (k * h)) by (nonlinear_arith)
        requires
            pow2(1028) == 128 * h,
    ;
    assert(r * z - x * k <= z * h && x * k - r * z <= z * h) by {
        if z == 0 {
            assert(x * k == 0 && r * z == 0 && z * h == 0) by (nonlinear_arith)
                requires
                    x == 0,
                    z == 0,
            ;
        }
    }
    assert(z <= 16 * k) by {
        lemma_pow2_adds(53, 1021);
        lemma2_to64_rest();
    }
    assert(k * k * pow2(1032) == 2048 * (k * k * h)) by (nonlinear_arith)
        requires
            pow2(1032) == 2048 * h,
    ;
    lemma_share_of_pull(k, h, x, y, z, r, a, b);
    lemma_share_of_pull_below(k, h, x, y, z, r, a, b);
    if s.q_prefill.value() == 0 && s.slo_prefill.value() == 0 && s.q_decode.value() == 0
        && s.kv_decode.value() == 0 && s.slo_decode.value() == 0 {
        lemma_no_demand(s);
    }
}

/// The errors of the parts, put together.
proof fn lemma_share_of_pull(
    k: int,
    h: int,
    x: int,
    y: int,
    z: int,
    r: int,
    a: int,
    b: int,
)
    requires
        0 < k,
        0 < h,
        0 <= r <= k,
        0 <= z <= 16 * k,
        10 * x * k - a <= 128 * (k * h),
        a - 10 * x * k <= 128 * (k * h),
        b - 10 * y <= 256 * h,
        x + y - z <= 8 * h,
        r * z - x * k <= z * h,
    ensures
        r * (a + b * k) - a * k <= 2048 * (k * k * h),
{
    let g = k * h;
    assert(0 < g) by (nonlinear_arith)
        requires
            0 < k,
            0 < h,
            g == k * h,
    ;
    let e = a + b * k - 10 * (x + y) * k;
    assert(e <= 384 * g) by (nonlinear_arith)
        requires
            e == a + b * k - 10 * (x + y) * k,
            a - 10 * x * k <= 128 * g,
            b - 10 * y <= 256 * h,
            k > 0,
            g == k * h,
    ;
    assert(r * e <= 384 * (k * g)) by (nonlinear_arith)
        requires
            e <= 384 * g,
            0 <= r <= k,
            g > 0,
    ;
    assert(r * (x + y - z) <= 8 * g) by (nonlinear_arith)
        requires
            x + y - z <= 8 * h,
            0 <= r <= k,
            g == k * h,
            h > 0,
    ;
    assert(r * z - x * k <= 16 * g) by (nonlinear_arith)
        requires
            r * z - x * k <= z * h,
            z <= 16 * k,
            g == k * h,
            h > 0,
    ;
    let f = r * (x + y - z) + (r * z - x * k);
    assert(f <= 24 * g);
    assert(k * f <= 24 * (k * g)) by (nonlinear_arith)
        requires
            f <= 24 * g,
            k > 0,
    ;
    assert(r * (a + b * k) - a * k == r * e + 10 * (k * f) + k * (10 * x * k - a))
        by (nonlinear_arith)
        requires
            e == a + b * k - 10 * (x + y) * k,
            f == r * (x + y - z) + (r * z - x * k),
    ;
    assert(k * (10 * x * k - a) <= 128 * (k * g)) by (nonlinear_arith)
        requires
            10 * x * k - a <= 128 * g,
            k > 0,
    ;
    assert(k * k * h == k * g) by (nonlinear_arith)
        requires
            g == k * h,
    ;
    assert(0 <= k * g) by (nonlinear_arith)
        requires
            k > 0,
            g > 0,
    ;
}

proof fn lemma_share_of_pull_below(
    k: int,
    h: int,
    x: int,
    y: int,
    z: int,
    r: int,
    a: int,
    b: int,
)
    requires
        0 < k,
        0 < h,
        0 <= r <= k,
        0 <= z <= 16 * k,
        10 * x * k - a <= 128 * (k * h),
        a - 10 * x * k <= 128 * (k * h),
        10 * y - b <= 256 * h,
        z - (x + y) <= 8 * h,
        x * k - r * z <= z * h,
    ensures
        a * k - r * (a + b * k) <= 2048 * (k * k * h),
{
    let g = k * h;
    assert(0 < g) by (nonlinear_arith)
        requires
            0 < k,
            0 < h,
            g == k * h,
    ;
    let e = 10 * (x + y) * k - (a + b * k);
    assert(e <= 384 * g) by (nonlinear_arith)
        requires
            e == 10 * (x + y) * k - (a + b * k),
            10 * x * k - a <= 128 * g,
            10 * y - b <= 256 * h,
            k > 0,
            g == k * h,
    ;
    assert(r * e <= 384 * (k * g)) by (nonlinear_arith)
        requires
            e <= 384 * g,
            0 <= r <= k,
            g > 0,
    ;
    assert(r * (z - (x + y)) <= 8 * g) by (nonlinear_arith)
        requires
            z - (x + y) <= 8 * h,
            0 <= r <= k,
            g == k * h,
            h > 0,
    ;
    assert(x * k - r * z <= 16 * g) by (nonlinear_arith)
        requires
            x * k - r * z <= z * h,
            z <= 16 * k,
            g == k * h,
            h > 0,
    ;
    let f = r * (z - (x + y)) + (x * k - r * z);
    assert(f <= 24 * g);
    assert(k * f <= 24 * (k * g)) by (nonlinear_arith)
        requires
            f <= 24 * g,
            k > 0,
    ;
    assert(a * k - r * (a + b * k) == r * e + 10 * (k * f) + k * (a - 10 * x * k))
        by (nonlinear_arith)
        requires
            e == 10 * (x + y) * k - (a + b * k),
            f == r * (z - (x + y)) + (x * k - r * z),
    ;
    assert(k * (a - 10 * x * k) <= 128 * (k * g)) by (nonlinear_arith)
        requires
            a - 10 * x * k <= 128 * g,
            k > 0,
    ;
    assert(k * k * h == k * g) by (nonlinear_arith)
        requires
            g == k * h,
    ;
    assert(0 <= k * g) by (nonlinear_arith)
        requires
            k > 0,
            g > 0,
    ;
}

proof fn lemma_nothing(a: Real, b: Real)
    requires
        is_signal(a),
        is_signal(b),
        a.value() == 0 || b.value() == 0,
    ensures
        product(a, b).value() == 0,
        is_signal(product(a, b)),
{
    lemma_product(a, b);
    lemma_pow2_pos(1074);
    let (x, y) = (a.value(), b.value());
    assert(x * y == 0) by (nonlinear_arith)
        requires
            x == 0 || y == 0,
    ;
    lemma_nearest_bound(0, pow2(1074), 0);
    assert(units(0) == 0) by (nonlinear_arith);
}

proof fn lemma_no_demand(s: PoolPressure)
    requires
        all_signals(s),
        s.q_prefill.value() == 0,
        s.slo_prefill.value() == 0,
        s.q_decode.value() == 0,
        s.kv_decode.value() == 0,
        s.slo_decode.value() == 0,
    ensures
        sum(prefill_demand(s), decode_demand(s)).value() == 0,
{
    lemma_weights();
    lemma_pow2_pos(1074);
    let q = Real { bits: POOL_WEIGHT_QUEUE_BITS };
    let k = Real { bits: POOL_WEIGHT_KV_BITS };
    let d = Real { bits: POOL_WEIGHT_SLO_BITS };
    lemma_rest(s.fp_share);
    lemma_nothing(q, s.q_prefill);
    lemma_nothing(d, s.slo_prefill);
    lemma_nothing(product(d, s.slo_prefill), difference(one(), s.fp_share));
    lemma_nothing(q, s.q_decode);
    lemma_nothing(k, s.kv_decode);
    lemma_nothing(d, s.slo_decode);
    lemma_sum(
        product(q, s.q_prefill),
        product(product(d, s.slo_prefill), difference(one(), s.fp_share)),
    );
    lemma_sum(product(q, s.q_decode), product(k, s.kv_decode));
    lemma_sum(sum(product(q, s.q_decode), product(k, s.kv_decode)), product(d, s.slo_decode));
    lemma_sum(prefill_demand(s), decode_demand(s));
}

/// The running sum of some signals.
pub proof fn lemma_add_signals(values: Seq<Real>)
    requires
        values.len() <= 1000,
        forall|i: int| 0 <= i < values.len() ==> is_signal(#[trigger] values[i]),
    ensures
        add_all(zero(), values).finite(),
        0 <= add_all(zero(), values).value(),
        0 <= exact_sum(values) <= values.len() * pow2(1074),
        apart(add_all(zero(), values).value(), exact_sum(values)) <= values.len() * pow2(1032),
    decreases values.len(),
{
    let k = pow2(1074);
    let h = pow2(1032);
    assert(units(0) == 0) by (nonlinear_arith);
    assert(0 * k == 0 && 0 * h == 0);
    if values.len() > 0 {
        let rest = values.drop_last();
        assert forall|i: int| 0 <= i < rest.len() implies is_signal(#[trigger] rest[i]) by {
            assert(is_signal(values[i]));
        }
        lemma_add_signals(rest);
        let x = values.last();
        assert(is_signal(values[values.len() - 1]));
        let n = values.len();
        assert(n * k == rest.len() * k + k && n * h == rest.len() * h + h) by (nonlinear_arith)
            requires
                n == rest.len() + 1,
        ;
        lemma_pow2_pos(1032);
        lemma_pow2_pos(1074);
        lemma_pow2_adds(42, 1032);
        lemma_pow2_adds(12, 1074);
        lemma2_to64();
        lemma2_to64_rest();
        assert(n * k <= 1000 * k && n * h <= 1000 * h) by (nonlinear_arith)
            requires
                n <= 1000,
        ;
        let before = add_all(zero(), rest);
        lemma_sum_error(before, x, 1086);
        lemma_sum_value(before, x);
    }
}

/// The mean of up to a thousand signals in numbers: times their count it is their sum, up to
/// `2^-41` each.
pub proof fn mean_in_numbers(values: Seq<Real>)
    requires
        0 < values.len() <= 1000,
        forall|i: int| 0 <= i < values.len() ==> is_signal(#[trigger] values[i]),
    ensures
        is_signal(mean(values)),
        apart(values.len() * mean(values).value(), exact_sum(values)) <= values.len() * pow2(1033),
{
    let k = pow2(1074) as int;
    let h = pow2(1032) as int;
    let n = values.len() as int;
    lemma_add_signals(values);
    lemma2_to64();
    lemma_count_is_exact(values.len());
    lemma_pow2_pos(1074);
    lemma_pow2_pos(1032);
    lemma_pow2_unfold(1033);
    lemma_pow2_strictly_increases(1021, 1032);
    lemma_one_value();
    assert(units(0) == 0) by (nonlinear_arith);
    let a = add_all(zero(), values);
    let c = of_nat(values.len());
    let m = mean(values).value();
    assert(n * k > 0) by (nonlinear_arith)
        requires
            n > 0,
            k > 0,
    ;
    if a.value() <= n * k {
        lemma_part(a, c);
        let (x, e) = (a.value(), pow2(1021) as int);
        assert(n * m - x <= n * e && x - n * m <= n * e) by (nonlinear_arith)
            requires
                m * (n * k) - x * k <= (n * k) * e,
                x * k - m * (n * k) <= (n * k) * e,
                k > 0,
        ;
        assert(n * e <= n * h) by (nonlinear_arith)
            requires
                e <= h,
                n > 0,
        ;
    } else {
        lemma_not_below(a);
        lemma_not_below(c);
        let q = quotient(a, c);
        let (x, y) = (a.value() as nat, c.value() as nat);
        assert(x * pow2(1074) >= pow2(1074) * y) by (nonlinear_arith)
            requires
                x >= y,
        ;
        lemma_nearest_bound(x * pow2(1074), y, ONE_BITS);
        lemma_nearest_range(x * pow2(1074), y);
        lemma_value_order(one(), q);
        lemma_value_order(q, zero());
        assert(mean(values).value() == k);
    }
    assert(n * (2 * h) == n * h + n * h) by (nonlinear_arith);
}

/// A new share is taken at the moment it is wanted if it is off by more than a twentieth, the last
/// change is thirty seconds ago and shares are applied; one that is off by less never is. The
/// bounds are those of the twentieth up to `2^-48`.
pub proof fn large_changes_are_applied(r: RebalancerState, s: PoolPressure, now_ns: u64)
    requires
        all_signals(s),
        is_signal(r.pi),
    ensures
        ({
            let wanted = wanted_share(r.pi, s);
            let off = apart(wanted.value(), r.pi.value());
            &&& 20 * off >= pow2(1074) + pow2(1027) && now_ns >= r.last_change_ns + 30_000_000_000
                && r.mode == RebalancerMode::CanActuate ==> r.applies(s, now_ns) && r.after_update(
                s,
                now_ns,
            ) == (RebalancerState { pi: wanted, last_change_ns: now_ns, mode: r.mode })
            &&& 20 * off <= pow2(1074) - pow2(1027) || now_ns < r.last_change_ns + 30_000_000_000
                || r.mode == RebalancerMode::Shadow ==> !r.applies(s, now_ns) && r.after_update(
                s,
                now_ns,
            ) == r
        }),
{
    wanted_share_in_numbers(r.pi, s);
    let w = wanted_share(r.pi, s);
    let n = negation(r.pi);
    lemma_not_below(r.pi);
    assert(n.finite() && n.value() == -r.pi.value());
    lemma_pow2_pos(1074);
    lemma_pow2_unfold(1075);
    lemma_sum_error(w, n, 1075);
    let d = sum(w, n);
    lemma2_to64();
    lemma2_to64_rest();
    let limit = Real { bits: POOL_REBALANCE_HYSTERESIS_BITS };
    let z = pow2(1017);
    lemma_pow2_pos(1017);
    lemma_pow2_adds(57, 1017);
    lemma_pow2_adds(4, 1017);
    lemma_pow2_adds(10, 1017);
    assert(crate::binary64::significand(POOL_REBALANCE_HYSTERESIS_BITS) == 0x19_9999_9999_999a);
    assert(crate::binary64::shift(POOL_REBALANCE_HYSTERESIS_BITS) == 1017);
    assert(limit.value() == 0x19_9999_9999_999a * z);
    assert(absolute(d).value() == if d.value() < 0 {
        -d.value()
    } else {
        d.value()
    });
    assert(!absolute(d).is_nan() && !limit.is_nan());
}

} // verus!
