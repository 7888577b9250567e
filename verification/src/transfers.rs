//! What moving KV costs, in numbers, and what that means for where a request decodes.

use vstd::prelude::*;
use vstd::arithmetic::power2::{
    lemma2_to64, lemma2_to64_rest, lemma_pow2_adds, lemma_pow2_pos, lemma_pow2_strictly_increases,
    lemma_pow2_unfold, pow2,
};
use crate::backend::{
    decode_clamps, decode_logs, decode_penalties, scaled, warmth_reward, BackendState,
    PlacementView,
};
use crate::binary64::{
    larger, lemma_count_is_exact, lemma_one_value, lemma_ratio_error, lemma_sum_error,
    lemma_value_order, of_nat, one, quotient, units, zero, Real,
};
use crate::elementary::value_at;
use crate::factors::{apart, is_core, is_logarithm, is_penalty, lemma_extremes, penalty_or_highest};
use crate::params::{
    RDMA_LINK_BYTES_PER_S_BITS, RDMA_MIN_BARRIER_BITS, ROUTING_TRANSFER_PENALTY_BITS,
};
use crate::pricing::{
    cost_in_numbers, lemma_cost_is_a_number, logs_add_up, logs_of, separates, usable_time,
    warmth_in_numbers, warmth_of, warmth_share,
};
use crate::rounding::{nearest, HIDDEN_BIT};
use crate::selection::{lowest_number, lowest_number_is_minimal};
use crate::topology::{
    base_latency, distance, transfer_ratio, transfer_seconds, transfer_seconds_are_bounded,
    transfers_take_time, Place,
};

verus! {

/// The distance of two places: none on one node, then by rack, by cluster, and beyond. It is least
/// for the closest relation that holds.
pub proof fn distance_by_relation(a: Place, b: Place)
    ensures
        distance(a, b) == 0 <==> a.node == b.node,
        distance(a, b) <= 1 <==> a.node == b.node || (a.rack == b.rack && a.cluster == b.cluster),
        distance(a, b) <= 2 <==> a.node == b.node || a.cluster == b.cluster,
        distance(a, b) <= 3,
        distance(a, b) == distance(b, a),
{
}

/// The time of a transfer below a terabyte in numbers: 2, 5, 12 or 80 microseconds by distance, and
/// one second for every 12.5 billion bytes, up to the time of one byte.
pub proof fn transfer_seconds_in_numbers(bytes: u64, d: u64)
    requires
        bytes < 0x100_0000_0000,
    ensures
        ({
            let micros: int = if d == 0 {
                2
            } else if d == 1 {
                5
            } else if d == 2 {
                12
            } else {
                80
            };
            apart(
                12_500_000_000 * transfer_seconds(bytes, d).value(),
                (12_500 * micros + bytes) * pow2(1074),
            ) <= pow2(1074)
        }),
{
    let k = pow2(1074) as int;
    lemma_pow2_pos(1074);
    lemma2_to64();
    lemma2_to64_rest();
    let l = base_latency(d) as nat;
    let b = bytes as nat;
    lemma_count_is_exact(l);
    lemma_count_is_exact(b);
    lemma_count_is_exact(1_000_000);
    let link = Real { bits: RDMA_LINK_BYTES_PER_S_BITS };
    lemma_pow2_adds(19, 1055);
    assert(crate::binary64::significand(RDMA_LINK_BYTES_PER_S_BITS) == 0x17_4876_e800_0000);
    assert(crate::binary64::shift(RDMA_LINK_BYTES_PER_S_BITS) == 1055);
    assert(link.value() == 12_500_000_000 * k);
    let first = quotient(of_nat(l), of_nat(1_000_000));
    let second = quotient(of_nat(b), link);
    let p = of_nat(l).value() as nat;
    let q = of_nat(b).value() as nat;
    let c = of_nat(1_000_000).value() as nat;
    let e = link.value() as nat;
    lemma_pow2_pos(1020);
    lemma_pow2_adds(7, 1074);
    assert(p * pow2(1074) < pow2(1074) * c) by (nonlinear_arith)
        requires
            p == l * k,
            c == 1_000_000 * k,
            l < 1_000_000,
            pow2(1074) == k,
            k > 0,
    ;
    assert(q * pow2(1074) < pow2(1081) * e) by (nonlinear_arith)
        requires
            q == b * k,
            e == 12_500_000_000 * k,
            b < 0x100_0000_0000,
            pow2(1081) == 128 * k,
            pow2(1074) == k,
            k > 0,
    ;
    lemma_ratio_error(p * pow2(1074), c, 1074);
    lemma_ratio_error(q * pow2(1074), e, 1081);
    let (x, y) = (first.value(), second.value());
    let (h, g) = (pow2(1020) as int, pow2(1027) as int);
    lemma_value_order(of_nat(1_000_000), zero());
    lemma_value_order(link, zero());
    assert(units(0) == 0) by (nonlinear_arith);
    assert(x == units(nearest(p * pow2(1074), c)));
    assert(y == units(nearest(q * pow2(1074), e)));
    assert(1_000_000 * x - l * k <= 1_000_000 * h && l * k - 1_000_000 * x <= 1_000_000 * h)
        by (nonlinear_arith)
        requires
            x * c - p * k <= c * h,
            p * k - x * c <= c * h,
            p == l * k,
            c == 1_000_000 * k,
            k > 0,
    ;
    assert(12_500_000_000 * y - b * k <= 12_500_000_000 * g && b * k - 12_500_000_000 * y
        <= 12_500_000_000 * g) by (nonlinear_arith)
        requires
            y * e - q * k <= e * g,
            q * k - y * e <= e * g,
            q == b * k,
            e == 12_500_000_000 * k,
            k > 0,
    ;
    assert(0 <= l * k <= 1_000_000 * k && 0 <= b * k <= 0x100_0000_0000 * k) by (nonlinear_arith)
        requires
            l < 1_000_000,
            b < 0x100_0000_0000,
            k > 0,
    ;
    lemma_pow2_adds(54, 1020);
    lemma_pow2_adds(47, 1027);
    lemma_pow2_adds(1, 1027);
    lemma_pow2_adds(8, 1074);
    lemma_pow2_pos(1027);
    lemma_sum_error(first, second, 1082);
    assert((12_500 * l + b) * k == 12_500 * (l * k) + b * k) by (nonlinear_arith);
}

/// The penalty for moving KV by its flat rate or its predicted time; one where nothing moves.
pub open spec fn moving_penalty<F: Fn(Real) -> Real, G: Fn(Real) -> Real>(
    ctx: PlacementView,
    place: Place,
    ln: F,
    exp: G,
) -> Real {
    penalty_or_highest(
        larger(
            if ctx.use_rdma_routing {
                value_at(
                    exp,
                    value_at(ln, transfer_seconds(ctx.kv_bytes, distance(ctx.place, place))),
                )
            } else {
                Real { bits: ROUTING_TRANSFER_PENALTY_BITS }
            },
            one(),
        ),
    )
}

/// One more penalty adds its logarithm to a cost that is made of more than the queue.
proof fn lemma_one_more_penalty<F: Fn(Real) -> Real>(
    a: BackendState,
    b: BackendState,
    ln: F,
    extra: Seq<Real>,
    p: Real,
    strength: Option<Real>,
    pi: Real,
)
    requires
        is_logarithm(ln),
        !pi.is_nan(),
        a.base == b.base,
        a.observed == b.observed,
        a.inflight == b.inflight,
        a.inflight < HIDDEN_BIT,
        is_penalty(p),
        forall|i: int| 0 <= i < extra.len() ==> is_penalty(#[trigger] extra[i]),
        extra.len() < 1000,
        extra.len() > 0 || warmth_of(strength) > 0,
    ensures
        apart(
            b.cost_log(ln, extra.push(p), warmth_reward(strength), pi, false).value() - a.cost_log(
                ln,
                extra,
                warmth_reward(strength),
                pi,
                false,
            ).value(),
            value_at(ln, p).value(),
        ) <= pow2(1051),
{
    let more = extra.push(p);
    assert forall|i: int| 0 <= i < more.len() implies is_penalty(#[trigger] more[i]) by {
        if i < extra.len() {
            assert(is_penalty(extra[i]));
        }
    }
    let r = warmth_reward(strength);
    assert(units(0) == 0) by (nonlinear_arith);
    if r is Some {
        warmth_in_numbers(strength->0);
    }
    cost_in_numbers(a, ln, extra, r, pi, false);
    cost_in_numbers(b, ln, more, r, pi, false);
    logs_add_up(ln, extra, p);
    lemma_pow2_unfold(1051);
}

/// The flat penalty is 1.15, so its logarithm is above zero.
pub proof fn flat_penalty_in_numbers<F: Fn(Real) -> Real>(ln: F)
    requires
        separates(ln),
    ensures
        ({
            let flat = Real { bits: ROUTING_TRANSFER_PENALTY_BITS };
            &&& penalty_or_highest(larger(flat, one())) == flat
            &&& pow2(1053) <= value_at(ln, flat).value()
            &&& apart(100 * flat.value(), 115int * pow2(1074)) <= pow2(1028)
        }),
{
    let flat = Real { bits: ROUTING_TRANSFER_PENALTY_BITS };
    let z = pow2(1022);
    lemma_one_value();
    lemma2_to64();
    lemma2_to64_rest();
    lemma_pow2_adds(52, 1022);
    lemma_pow2_adds(6, 1022);
    assert(crate::binary64::significand(ROUTING_TRANSFER_PENALTY_BITS) == 0x12_6666_6666_6666);
    assert(crate::binary64::shift(ROUTING_TRANSFER_PENALTY_BITS) == 1022);
    assert(flat.value() == 0x12_6666_6666_6666 * z);
    lemma_pow2_pos(1022);
    assert(units(0) == 0) by (nonlinear_arith);
    assert(is_core(flat) && is_core(one()));
    assert(one().value() <= 0x10_0000 * (flat.value() - one().value()));
}

/// A candidate to which KV has to be moved costs more than its twin that holds it already, by the
/// logarithm of the penalty for the transfer. With the flat penalty the one that moves is never
/// chosen. Where nothing else is a penalty, warmth has to be a hit.
pub proof fn staying_beats_moving<F: Fn(Real) -> Real, G: Fn(Real) -> Real>(
    ctx: PlacementView,
    pool: Seq<BackendState>,
    strengths: Seq<Option<Real>>,
    extra: Seq<Real>,
    pi: Real,
    ln: F,
    exp: G,
    stays: int,
    moves: int,
)
    requires
        separates(ln),
        !pi.is_nan(),
        0 <= stays < pool.len(),
        0 <= moves < pool.len(),
        strengths.len() == pool.len(),
        pool[stays].base == pool[moves].base,
        pool[stays].observed == pool[moves].observed,
        pool[stays].inflight == pool[moves].inflight,
        pool[stays].inflight < HIDDEN_BIT,
        pool[stays].label == ctx.prefill_label,
        pool[moves].label != ctx.prefill_label,
        strengths[stays] == strengths[moves],
        forall|i: int| 0 <= i < extra.len() ==> is_penalty(#[trigger] extra[i]),
        extra.len() < 1000,
        extra.len() > 0 || warmth_of(strengths[stays]) > 0,
    ensures
        ({
            let costs = decode_logs(ctx, pool, Some(strengths), extra, pi, ln, exp);
            let p = moving_penalty(ctx, pool[moves].place, ln, exp);
            &&& apart(costs[moves].value() - costs[stays].value(), value_at(ln, p).value())
                <= pow2(1051)
            &&& !ctx.use_rdma_routing ==> costs[stays].below(costs[moves]) && lowest_number(costs)
                != moves
        }),
{
    let costs = decode_logs(ctx, pool, Some(strengths), extra, pi, ln, exp);
    let (a, b) = (pool[stays], pool[moves]);
    let p = moving_penalty(ctx, b.place, ln, exp);
    assert(is_penalty(p)) by {
        lemma_extremes();
    }
    assert(decode_penalties(ctx, b, extra, ln, exp) == extra.push(p));
    assert(decode_penalties(ctx, a, extra, ln, exp) == extra);
    lemma_one_more_penalty(a, b, ln, extra, p, strengths[stays], pi);
    if !ctx.use_rdma_routing {
        flat_penalty_in_numbers(ln);
        lemma_pow2_unfold(1052);
        lemma_pow2_unfold(1053);
        lemma_pow2_pos(1051);
        assert forall|i: int| 0 <= i < costs.len() implies (#[trigger] costs[i]).finite() by {
            lemma_cost_is_a_number(
                pool[i],
                ln,
                decode_penalties(ctx, pool[i], extra, ln, exp),
                warmth_reward(strengths[i]),
                pi,
                false,
            );
        }
        assert(costs[stays].finite() && costs[moves].finite());
        lowest_number_is_minimal(costs);
    }
}

/// The log-cost of a decode candidate in numbers: the logarithms of its service time at the share
/// that prefill leaves, of one plus its requests in flight, of every penalty of the request, of the
/// transfer unless it prefilled the request itself, and of what its warmth leaves, up to `2^-24`.
/// Where none of these is a factor beyond the queue, its cost is by queue and share alone.
pub proof fn decode_costs_in_numbers<F: Fn(Real) -> Real, G: Fn(Real) -> Real>(
    ctx: PlacementView,
    pool: Seq<BackendState>,
    strengths: Option<Seq<Option<Real>>>,
    extra: Seq<Real>,
    pi: Real,
    ln: F,
    exp: G,
    i: int,
)
    requires
        is_logarithm(ln),
        !pi.is_nan(),
        0 <= i < pool.len(),
        strengths is Some ==> strengths->0.len() == pool.len(),
        pool[i].inflight < HIDDEN_BIT,
        forall|j: int| 0 <= j < extra.len() ==> is_penalty(#[trigger] extra[j]),
        extra.len() < 1000,
    ensures
        ({
            let cost = decode_logs(ctx, pool, strengths, extra, pi, ln, exp)[i];
            let b = pool[i];
            let warmth = if strengths is Some {
                strengths->0[i]
            } else {
                None
            };
            let moved = if b.label == ctx.prefill_label {
                0
            } else {
                value_at(ln, moving_penalty(ctx, b.place, ln, exp)).value()
            };
            let plain = extra.len() == 0 && b.label == ctx.prefill_label && warmth_of(warmth) == 0;
            &&& cost.finite()
            &&& plain ==> cost == b.cost_log(ln, Seq::empty(), None, pi, false)
            &&& !plain ==> apart(
                cost.value(),
                value_at(ln, usable_time(scaled(b.effective(), pi, false))).value() + value_at(
                    ln,
                    of_nat(b.inflight as nat + 1),
                ).value() + logs_of(ln, extra) + moved + value_at(ln, warmth_share(warmth)).value(),
            ) <= pow2(1050)
        }),
{
    let b = pool[i];
    let warmth = if strengths is Some {
        strengths->0[i]
    } else {
        None
    };
    let p = moving_penalty(ctx, b.place, ln, exp);
    assert(is_penalty(p)) by {
        lemma_extremes();
    }
    let all = decode_penalties(ctx, b, extra, ln, exp);
    assert forall|j: int| 0 <= j < all.len() implies is_penalty(#[trigger] all[j]) by {
        if j < extra.len() {
            assert(is_penalty(extra[j]));
        }
    }
    logs_add_up(ln, extra, p);
    let r = warmth_reward(warmth);
    assert(units(0) == 0) by (nonlinear_arith);
    lemma_pow2_pos(1074);
    if r is Some {
        warmth_in_numbers(warmth->0);
    }
    cost_in_numbers(b, ln, all, r, pi, false);
    if all.len() == 0 {
        assert(all =~= Seq::empty());
    }
}

/// Pricing a decode candidate counts each signal that cannot be used: its service time where more
/// than its queue is priced, and the predicted time of a transfer that is beyond all bounds.
pub proof fn unusable_signals_are_counted<F: Fn(Real) -> Real, G: Fn(Real) -> Real>(
    ctx: PlacementView,
    pool: Seq<BackendState>,
    strengths: Option<Seq<Option<Real>>>,
    extra: Seq<Real>,
    pi: Real,
    ln: F,
    exp: G,
    i: int,
)
    requires
        0 <= i < pool.len(),
        strengths is Some ==> strengths->0.len() == pool.len(),
    ensures
        ({
            let b = pool[i];
            let warmth = if strengths is Some {
                strengths->0[i]
            } else {
                None
            };
            let moves = b.label != ctx.prefill_label;
            let plain = extra.len() == 0 && !moves && warmth_of(warmth) == 0;
            let secs = transfer_seconds(ctx.kv_bytes, distance(ctx.place, b.place));
            let endless = moves && ctx.use_rdma_routing && value_at(
                exp,
                value_at(ln, secs),
            ).is_infinite() && !value_at(exp, value_at(ln, secs)).negative();
            let broken = !plain && !is_core(scaled(b.effective(), pi, false));
            decode_clamps(ctx, pool, strengths, extra, pi, ln, exp)[i] == (if endless {
                1int
            } else {
                0
            }) + (if broken {
                1int
            } else {
                0
            })
        }),
{
    let b = pool[i];
    lemma_extremes();
    lemma_one_value();
    lemma_pow2_pos(1074);
    assert(units(0) == 0) by (nonlinear_arith);
    lemma_flat_is_a_penalty();
    let secs = transfer_seconds(ctx.kv_bytes, distance(ctx.place, b.place));
    let t = value_at(exp, value_at(ln, secs));
    if !t.is_nan() {
        lemma_value_order(t, one());
        lemma_value_order(one(), t);
    }
    let warmth = if strengths is Some {
        strengths->0[i]
    } else {
        None
    };
    assert(warmth_reward(warmth) is None <==> warmth_of(warmth) == 0);
}

proof fn lemma_flat_is_a_penalty()
    ensures
        is_penalty(larger(Real { bits: ROUTING_TRANSFER_PENALTY_BITS }, one())),
{
    lemma_one_value();
    lemma_value_order(one(), Real { bits: ROUTING_TRANSFER_PENALTY_BITS });
}

/// The ratio of a transfer below a terabyte to the shortest one in numbers: its time in
/// microseconds over two, up to a sixtyfourth.
pub proof fn transfer_ratio_in_numbers(bytes: u64, d: u64)
    requires
        bytes < 0x100_0000_0000,
    ensures
        apart(
            2 * transfer_ratio(bytes, d).value(),
            1_000_000 * transfer_seconds(bytes, d).value(),
        ) <= pow2(1069),
{
    let k = pow2(1074);
    let secs = transfer_seconds(bytes, d);
    transfer_seconds_in_numbers(bytes, d);
    transfers_take_time(bytes, d);
    transfer_seconds_are_bounded(bytes, d);
    lemma2_to64();
    lemma2_to64_rest();
    lemma_pow2_pos(1074);
    lemma_pow2_pos(1020);
    lemma_one_value();
    lemma_count_is_exact(2);
    lemma_count_is_exact(1_000_000);
    assert(units(0) == 0) by (nonlinear_arith);
    let near = quotient(of_nat(2), of_nat(1_000_000));
    let c = 1_000_000 * k;
    let n = (2 * k) * k;
    assert(n < pow2(1074) * c) by (nonlinear_arith)
        requires
            n == (2 * k) * k,
            c == 1_000_000 * k,
            pow2(1074) == k,
            k > 0,
    ;
    lemma_ratio_error(n, c, 1074);
    lemma_value_order(of_nat(1_000_000), zero());
    let x = units(nearest(n, c));
    let h = pow2(1020);
    assert(near.value() == x && near.finite() && !near.negative());
    lemma_pow2_adds(54, 1020);
    assert(1_000_000 * x - 2 * k <= 1_000_000 * h && 2 * k - 1_000_000 * x <= 1_000_000 * h)
        by (nonlinear_arith)
        requires
            x * c - n <= c * h,
            n - x * c <= c * h,
            n == (2 * k) * k,
            c == 1_000_000 * k,
            k > 0,
    ;
    lemma_pow2_adds(19, 1055);
    lemma_pow2_adds(35, 1020);
    lemma_pow2_pos(1055);
    assert(x >= pow2(1055));
    let s = secs.value() as nat;
    let micros: int = if d == 0 {
        2
    } else if d == 1 {
        5
    } else if d == 2 {
        12
    } else {
        80
    };
    let bound = (12_500 * micros + bytes) * k;
    assert(25_000 * k <= bound && bound <= 0x200_0000_0000 * k) by (nonlinear_arith)
        requires
            bound == (12_500 * micros + bytes) * k,
            2 <= micros <= 80,
            bytes < 0x100_0000_0000,
            k > 0,
    ;
    lemma_pow2_adds(8, 1074);
    assert(s <= 256 * k);
    lemma_pow2_adds(1082, 1074);
    lemma_pow2_adds(1102, 1055);
    lemma_pow2_strictly_increases(2156, 2157);
    assert(s * k < pow2(1102) * x) by (nonlinear_arith)
        requires
            s <= pow2(1082),
            pow2(1082) * k < pow2(1102) * pow2(1055),
            pow2(1055) <= x,
    ;
    lemma_ratio_error(s * k, x, 1102);
    lemma_value_order(near, zero());
    lemma_value_order(secs, zero());
    let q = quotient(secs, near);
    let v = units(nearest(s * k, x));
    assert(q.value() == v);
    lemma_pow2_adds(28, 1074);
    lemma_pow2_adds(26, 1048);
    lemma_pow2_pos(1048);
    lemma_pow2_adds(28, 1020);
    lemma_pow2_adds(21, 1048);
    lemma_pow2_adds(49, 1020);
    let e = pow2(1048) as int;
    assert(s * k <= (0x800_0000 * k) * x) by (nonlinear_arith)
        requires
            s <= 256 * k,
            k <= 0x8_0000 * x,
            k > 0,
    ;
    assert(v <= 0x800_0000 * k + e) by (nonlinear_arith)
        requires
            v * x - s * k <= x * e,
            s * k <= (0x800_0000 * k) * x,
            x > 0,
    ;
    lemma_ratio_of_times(v as int, x as int, s as int, k as int, h as int, pow2(1048) as int);
    assert(transfer_ratio(bytes, d) == q || transfer_ratio(bytes, d) == one()) by {
        assert(Real { bits: RDMA_MIN_BARRIER_BITS } == one());
    }
    lemma_value_order(q, one());
    if transfer_ratio(bytes, d) != q {
        assert(v < k);
        // The shortest transfer takes two microseconds, up to rounding.
        assert(1_000_000 * s >= 2 * k - 80 * k / 12_500 - 1) by {
            assert(12_500_000_000 * s >= 25_000 * k - k);
        }
    }
}

proof fn lemma_ratio_of_times(v: int, x: int, s: int, k: int, h: int, e: int)
    requires
        0 < h,
        0 < k,
        0 <= v,
        0 <= s,
        0 <= x <= k,
        e == 0x1000_0000 * h,
        k == 0x40_0000_0000_0000 * h,
        1_000_000 * x - 2 * k <= 1_000_000 * h,
        2 * k - 1_000_000 * x <= 1_000_000 * h,
        v * x - s * k <= x * e,
        s * k - v * x <= x * e,
        v <= 0x1000_0000 * k,
    ensures
        2 * v - 1_000_000 * s <= 0x2_0000_0000_0000 * h,
        1_000_000 * s - 2 * v <= 0x2_0000_0000_0000 * h,
{
    assert((1_000_000 * x) * v - (2 * k) * v <= 1_000_000 * (h * v) && (2 * k) * v - (1_000_000 * x)
        * v <= 1_000_000 * (h * v)) by (nonlinear_arith)
        requires
            1_000_000 * x - 2 * k <= 1_000_000 * h,
            2 * k - 1_000_000 * x <= 1_000_000 * h,
            0 <= v,
    ;
    assert(h * v <= 0x1000_0000 * (h * k)) by (nonlinear_arith)
        requires
            0 < h,
            v <= 0x1000_0000 * k,
    ;
    assert(1_000_000 * (x * e) <= 0x400_0000 * (e * k) && e * k == 0x1000_0000 * (h * k))
        by (nonlinear_arith)
        requires
            1_000_000 * x - 2 * k <= 1_000_000 * h,
            k == 0x40_0000_0000_0000 * h,
            e == 0x1000_0000 * h,
            h > 0,
    {
        assert(1_000_000 * x <= 3 * k);
        assert(1_000_000 * (x * e) <= 3 * (e * k)) by (nonlinear_arith)
            requires
                1_000_000 * x <= 3 * k,
                e > 0,
        ;
        assert(e * k == 0x1000_0000 * (h * k)) by (nonlinear_arith)
            requires
                e == 0x1000_0000 * h,
        ;
        assert(e * k >= 0) by (nonlinear_arith)
            requires
                e > 0,
                k > 0,
        ;
    }
    assert(1_000_000 * (x * e) <= 3 * (e * k)) by (nonlinear_arith)
        requires
            1_000_000 * x <= 3 * k,
            e > 0,
    ;
    assert((1_000_000 * x) * v == 1_000_000 * (v * x)) by (nonlinear_arith);
    let z = h * k;
    assert((2 * v - 1_000_000 * s) * k <= (0x2_0000_0000_0000 * h) * k && (1_000_000 * s - 2 * v) * k
        <= (0x2_0000_0000_0000 * h) * k) by (nonlinear_arith)
        requires
            (1_000_000 * x) * v - (2 * k) * v <= 1_000_000 * (h * v),
            (2 * k) * v - (1_000_000 * x) * v <= 1_000_000 * (h * v),
            h * v <= 0x1000_0000 * z,
            z == h * k,
            z >= 0,
            (1_000_000 * x) * v == 1_000_000 * (v * x),
            v * x - s * k <= x * e,
            s * k - v * x <= x * e,
            1_000_000 * (x * e) <= 3 * (0x1000_0000 * z),
    {
        assert(z >= 0);
    }
    assert(2 * v - 1_000_000 * s <= 0x2_0000_0000_0000 * h) by (nonlinear_arith)
        requires
            (2 * v - 1_000_000 * s) * k <= (0x2_0000_0000_0000 * h) * k,
            k > 0,
    ;
    assert(1_000_000 * s - 2 * v <= 0x2_0000_0000_0000 * h) by (nonlinear_arith)
        requires
            (1_000_000 * s - 2 * v) * k <= (0x2_0000_0000_0000 * h) * k,
            k > 0,
    ;
}

} // verus!
