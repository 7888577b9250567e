//! What a replayed window asks of the load generator, in numbers.

use vstd::prelude::*;
use vstd::arithmetic::power2::{
    lemma2_to64, lemma2_to64_rest, lemma_pow2_adds, lemma_pow2_pos, lemma_pow2_strictly_increases,
    lemma_pow2_unfold, pow2,
};
use crate::binary64::{
    clamped, difference, larger, lemma_count_is_exact, lemma_one_value, lemma_ratio_error,
    lemma_sum_error, lemma_sum_value, lemma_units_of_power, lemma_value_order, negation, of_nat,
    one, product, quotient, rounded, signed, sum, units, zero, Real,
};
use crate::demand::{
    is_signal, lemma_add_signals, lemma_not_below, lemma_part, lemma_product, lemma_rest,
};
use crate::elementary::value_at;
use crate::factors::{add_all, apart};
use crate::fleet::{
    average, c, correlation, labelled, prefill_fraction, replay_of, reports, requests_in,
    scaled_concurrency, scaled_delay, shed_in_heavy, squares, FleetPilotReport, FleetWindowResult,
    TraceWindow, C_0_05, C_0_10, C_0_25, C_0_35, C_0_40, C_0_45, C_0_50, C_0_55, C_0_70, C_0_95,
    C_1_60, C_2_00, SPREAD_FLOOR_BITS,
};
use crate::rebalancer::{wanted_share, PoolPressure, HALF_BITS};
use crate::rounding::nearest;

verus! {

/// The constants of the load generator in hundredths, up to `2^-47`.
proof fn lemma_hundredths()
    ensures
        apart(100 * c(C_0_05).value(), 5int * pow2(1074)) <= pow2(1027),
        apart(100 * c(C_0_10).value(), 10int * pow2(1074)) <= pow2(1027),
        apart(100 * c(C_0_25).value(), 25int * pow2(1074)) <= pow2(1027),
        apart(100 * c(C_0_35).value(), 35int * pow2(1074)) <= pow2(1027),
        apart(100 * c(C_0_40).value(), 40int * pow2(1074)) <= pow2(1027),
        apart(100 * c(C_0_45).value(), 45int * pow2(1074)) <= pow2(1027),
        apart(100 * c(C_0_55).value(), 55int * pow2(1074)) <= pow2(1027),
        apart(100 * c(C_0_70).value(), 70int * pow2(1074)) <= pow2(1027),
        apart(100 * c(C_0_95).value(), 95int * pow2(1074)) <= pow2(1027),
        apart(100 * c(C_1_60).value(), 160int * pow2(1074)) <= 2 * pow2(1027),
{
    let z = pow2(1017);
    lemma_pow2_pos(1017);
    lemma2_to64();
    lemma2_to64_rest();
    lemma_pow2_adds(1, 1017);
    lemma_pow2_adds(2, 1017);
    lemma_pow2_adds(3, 1017);
    lemma_pow2_adds(4, 1017);
    lemma_pow2_adds(5, 1017);
    lemma_pow2_adds(10, 1017);
    lemma_pow2_adds(57, 1017);
    assert(units(C_0_05) == 0x19_9999_9999_999a * z) by {
        assert(crate::binary64::significand(C_0_05) == 0x19_9999_9999_999a);
        assert(crate::binary64::shift(C_0_05) == 1017);
    }
    assert(units(C_0_10) == 0x19_9999_9999_999a * (2 * z)) by {
        assert(crate::binary64::significand(C_0_10) == 0x19_9999_9999_999a);
        assert(crate::binary64::shift(C_0_10) == 1018);
    }
    assert(units(C_0_25) == 0x10_0000_0000_0000 * (8 * z)) by {
        assert(crate::binary64::significand(C_0_25) == 0x10_0000_0000_0000);
        assert(crate::binary64::shift(C_0_25) == 1020);
    }
    assert(units(C_0_35) == 0x16_6666_6666_6666 * (8 * z)) by {
        assert(crate::binary64::significand(C_0_35) == 0x16_6666_6666_6666);
        assert(crate::binary64::shift(C_0_35) == 1020);
    }
    assert(units(C_0_40) == 0x19_9999_9999_999a * (8 * z)) by {
        assert(crate::binary64::significand(C_0_40) == 0x19_9999_9999_999a);
        assert(crate::binary64::shift(C_0_40) == 1020);
    }
    assert(units(C_0_45) == 0x1c_cccc_cccc_cccd * (8 * z)) by {
        assert(crate::binary64::significand(C_0_45) == 0x1c_cccc_cccc_cccd);
        assert(crate::binary64::shift(C_0_45) == 1020);
    }
    assert(units(C_0_55) == 0x11_9999_9999_999a * (16 * z)) by {
        assert(crate::binary64::significand(C_0_55) == 0x11_9999_9999_999a);
        assert(crate::binary64::shift(C_0_55) == 1021);
    }
    assert(units(C_0_70) == 0x16_6666_6666_6666 * (16 * z)) by {
        assert(crate::binary64::significand(C_0_70) == 0x16_6666_6666_6666);
        assert(crate::binary64::shift(C_0_70) == 1021);
    }
    assert(units(C_0_95) == 0x1e_6666_6666_6666 * (16 * z)) by {
        assert(crate::binary64::significand(C_0_95) == 0x1e_6666_6666_6666);
        assert(crate::binary64::shift(C_0_95) == 1021);
    }
    assert(units(C_1_60) == 0x19_9999_9999_999a * (32 * z)) by {
        assert(crate::binary64::significand(C_1_60) == 0x19_9999_9999_999a);
        assert(crate::binary64::shift(C_1_60) == 1022);
    }
}

/// A signal times a weight of so many hundredths.
proof fn lemma_part_of_signal(x: Real, w: Real, hundredths: int)
    requires
        is_signal(x),
        is_signal(w),
        apart(100 * w.value(), hundredths * pow2(1074)) <= pow2(1027),
    ensures
        is_signal(product(x, w)),
        apart(100 * product(x, w).value(), hundredths * x.value()) <= 4 * pow2(1027),
{
    let k = pow2(1074) as int;
    let (h, g) = (pow2(1021) as int, pow2(1027) as int);
    lemma_pow2_pos(1074);
    lemma_pow2_pos(1021);
    lemma_pow2_adds(6, 1021);
    lemma2_to64();
    lemma_product(x, w);
    let (p, a, b) = (product(x, w).value(), x.value(), w.value());
    assert(100 * (a * b) - (hundredths * a) * k <= k * g && (hundredths * a) * k - 100 * (a * b)
        <= k * g) by (nonlinear_arith)
        requires
            100 * b - hundredths * k <= g,
            hundredths * k - 100 * b <= g,
            0 <= a <= k,
            g > 0,
    ;
    assert(100 * p - hundredths * a <= 4 * g) by (nonlinear_arith)
        requires
            p * k - a * b <= k * h,
            100 * (a * b) - (hundredths * a) * k <= k * g,
            g == 64 * h,
            k > 0,
            h > 0,
    {
        assert((100 * p - hundredths * a) * k <= (4 * g) * k) by (nonlinear_arith)
            requires
                p * k - a * b <= k * h,
                100 * (a * b) - (hundredths * a) * k <= k * g,
                g == 64 * h,
                k > 0,
                h > 0,
        ;
    }
    assert(hundredths * a - 100 * p <= 4 * g) by (nonlinear_arith)
        requires
            a * b - p * k <= k * h,
            (hundredths * a) * k - 100 * (a * b) <= k * g,
            g == 64 * h,
            k > 0,
            h > 0,
    {
        assert((hundredths * a - 100 * p) * k <= (4 * g) * k) by (nonlinear_arith)
            requires
                a * b - p * k <= k * h,
                (hundredths * a) * k - 100 * (a * b) <= k * g,
                g == 64 * h,
                k > 0,
                h > 0,
        ;
    }
}

/// The share of prompts in a window in numbers: 70 percent and a quarter of the prefill queue where
/// prefill is heavy, else 10 percent and 35 hundredths of it.
pub proof fn prefill_fraction_in_numbers(w: TraceWindow)
    requires
        is_signal(w.q_prefill),
    ensures
        apart(
            100 * prefill_fraction(w).value(),
            if w.prefill_heavy {
                70 * pow2(1074) + 25 * w.q_prefill.value()
            } else {
                10 * pow2(1074) + 35 * w.q_prefill.value()
            },
        ) <= 16 * pow2(1027),
{
    lemma_hundredths();
    lemma_pow2_pos(1027);
    lemma_pow2_pos(1074);
    lemma2_to64();
    lemma2_to64_rest();
    lemma_pow2_adds(47, 1027);
    lemma_pow2_adds(6, 1021);
    lemma_pow2_pos(1021);
    lemma_pow2_unfold(1075);
    if w.prefill_heavy {
        lemma_part_of_signal(w.q_prefill, c(C_0_25), 25);
        lemma_sum_error(c(C_0_70), product(w.q_prefill, c(C_0_25)), 1075);
    } else {
        lemma_part_of_signal(w.q_prefill, c(C_0_35), 35);
        lemma_sum_error(c(C_0_10), product(w.q_prefill, c(C_0_35)), 1075);
    }
}

/// A delay in numbers: four tenths of the base and sixteen tenths of it times the pressure, cut to
/// whole microseconds.
pub proof fn scaled_delay_in_numbers(base_us: u64, pressure: Real)
    requires
        10 <= base_us < 0x1_0000_0000,
        is_signal(pressure),
    ensures
        ({
            let asked = base_us * (40 * pow2(1074) + 160 * pressure.value());
            &&& 100 * scaled_delay(base_us, pressure) * pow2(1074) <= asked + pow2(1067)
            &&& asked < 100 * (scaled_delay(base_us, pressure) + 1) * pow2(1074) + pow2(1067)
        }),
{
    let k = pow2(1074);
    let (h, g) = (pow2(1021) as int, pow2(1027) as int);
    lemma_hundredths();
    lemma_pow2_pos(1021);
    lemma_pow2_pos(1074);
    lemma2_to64();
    lemma2_to64_rest();
    lemma_pow2_adds(6, 1021);
    lemma_pow2_adds(47, 1027);
    lemma_pow2_adds(40, 1027);
    lemma_pow2_unfold(1075);
    lemma_pow2_unfold(1076);
    lemma_one_value();
    assert(units(0) == 0) by (nonlinear_arith);
    lemma_not_below(pressure);
    let w = c(C_1_60);
    let (x, y) = (pressure.value() as nat, w.value() as nat);
    let n = x * y;
    assert(n < pow2(1075) * k) by (nonlinear_arith)
        requires
            n == x * y,
            x <= k,
            y < 2 * k,
            pow2(1075) == 2 * k,
            k > 0,
    ;
    lemma_ratio_error(n, k, 1075);
    let p = product(pressure, w);
    if pressure.negative() {
        assert(n == 0) by (nonlinear_arith)
            requires
                n == x * y,
                x == 0,
        ;
        crate::binary64::lemma_nearest_bound(0, k, 0);
    }
    let q = units(nearest(n, k));
    assert(p.finite() && p.value() == q);
    assert(100 * n - 160 * (x * k) <= 2 * (k * g) && 160 * (x * k) - 100 * n <= 2 * (k * g))
        by (nonlinear_arith)
        requires
            n == x * y,
            100 * y - 160 * k <= 2 * g,
            160 * k - 100 * y <= 2 * g,
            0 <= x <= k,
            g > 0,
    ;
    assert(100 * q - 160 * x <= 4 * g && 160 * x - 100 * q <= 4 * g) by (nonlinear_arith)
        requires
            q * k - n <= k * h,
            n - q * k <= k * h,
            100 * n - 160 * (x * k) <= 2 * (k * g),
            160 * (x * k) - 100 * n <= 2 * (k * g),
            g == 64 * h,
            k > 0,
            h > 0,
    ;
    let f = sum(c(C_0_40), p);
    lemma_sum_error(c(C_0_40), p, 1076);
    let t = 40 * k + 160 * x;
    assert(100 * f.value() - t <= 16 * g && t - 100 * f.value() <= 16 * g) by {
        lemma_pow2_adds(1, 1021);
    }
    lemma_value_order(f, zero());
    assert(!f.negative());
    let b = base_us as nat;
    lemma_count_is_exact(b);
    let z = f.value() as nat;
    let m = (b * k) * z;
    lemma_pow2_adds(35, 1074);
    assert(b * z <= 0x4_0000_0000 * k) by (nonlinear_arith)
        requires
            b < 0x1_0000_0000,
            z <= 4 * k,
    ;
    assert(m < pow2(1109) * k) by (nonlinear_arith)
        requires
            m == (b * k) * z,
            b * z <= 0x4_0000_0000 * k,
            pow2(1109) == 0x8_0000_0000 * k,
            k > 0,
    ;
    lemma_ratio_error(m, k, 1109);
    let v = units(nearest(m, k));
    let e = pow2(1055) as int;
    assert(v - b * z <= e && b * z - v <= e) by (nonlinear_arith)
        requires
            v * k - m <= k * e,
            m - v * k <= k * e,
            m == (b * k) * z,
            k > 0,
    ;
    assert(100 * (b * z) - b * t <= 0x10_0000_0000 * g && b * t - 100 * (b * z) <= 0x10_0000_0000
        * g) by (nonlinear_arith)
        requires
            100 * z - t <= 16 * g,
            t - 100 * z <= 16 * g,
            0 <= b < 0x1_0000_0000,
            g > 0,
    ;
    lemma_pow2_adds(12, 1055);
    lemma_pow2_adds(28, 1027);
    lemma_pow2_adds(7, 1067);
    let r = product(of_nat(b), f);
    assert(r == signed(false, nearest(m, k)));
    assert(b * t >= 400 * k) by (nonlinear_arith)
        requires
            b >= 10,
            t >= 40 * k,
            k > 0,
    ;
    assert(v >= k);
    assert(larger(r, one()) == r);
    vstd::arithmetic::div_mod::lemma_fundamental_div_mod(v as int, k as int);
    let d = v / k;
    assert(k * d == d * k && (d + 1) * k == d * k + k) by (nonlinear_arith);
    assert(d <= u64::MAX) by (nonlinear_arith)
        requires
            d * k <= 0x4_0000_0000 * k + k,
            k > 0,
    ;
    assert(scaled_delay(base_us, pressure) == d);
    assert(100 * d * k == 100 * (d * k) && 100 * (d + 1) * k == 100 * ((d + 1) * k))
        by (nonlinear_arith);
    assert(base_us * (40 * pow2(1074) + 160 * pressure.value()) == b * t);
}

/// A window is replayed by its own pressure: its wanted share is what the rebalancer wants from
/// equal shares under the signals of the window, each taken as it is.
pub proof fn windows_are_replayed_by_their_pressure(w: TraceWindow)
    requires
        is_signal(w.q_prefill),
        is_signal(w.q_decode),
        is_signal(w.kv_decode),
        is_signal(w.slo_prefill),
        is_signal(w.slo_decode),
        is_signal(w.fp_share),
    ensures
        replay_of(w).pi_star == wanted_share(
            Real { bits: HALF_BITS },
            PoolPressure {
                q_prefill: w.q_prefill,
                q_decode: w.q_decode,
                kv_decode: w.kv_decode,
                slo_prefill: w.slo_prefill,
                slo_decode: w.slo_decode,
                fp_share: w.fp_share,
            },
        ),
        replay_of(w).prefill_heavy == w.prefill_heavy,
        replay_of(w).held_out == w.held_out,
        replay_of(w).ts_ms == w.ts_ms,
{
    lemma_one_value();
    assert(units(0) == 0) by (nonlinear_arith);
}

/// The concurrency of a window in numbers: the base times 45 hundredths and both queues, to the
/// nearest integer, from 4 to 64.
pub proof fn concurrency_in_numbers(base: u32, w: TraceWindow)
    requires
        base <= 1000,
        is_signal(w.q_prefill),
        is_signal(w.q_decode),
        ({
            let load = 45 * pow2(1074) + 100 * w.q_prefill.value() + 100 * w.q_decode.value();
            51 * pow2(1074) <= load <= 199 * pow2(1074)
        }),
    ensures
        ({
            let load = 45 * pow2(1074) + 100 * w.q_prefill.value() + 100 * w.q_decode.value();
            let n = scaled_concurrency(base, w);
            &&& 4 <= n <= 64
            &&& apart(100 * n * pow2(1074), base * load) <= 51 * pow2(1074) || (n == 4 && base
                * load <= 451 * pow2(1074)) || (n == 64 && base * load >= 6349 * pow2(1074))
        }),
{
    let k = pow2(1074);
    let g = pow2(1027) as int;
    lemma_hundredths();
    lemma_one_value();
    lemma_pow2_pos(1021);
    lemma_pow2_pos(1027);
    lemma_pow2_pos(1074);
    lemma2_to64();
    lemma2_to64_rest();
    lemma_pow2_adds(1, 1021);
    lemma_pow2_adds(6, 1021);
    lemma_pow2_adds(47, 1027);
    lemma_pow2_unfold(1075);
    lemma_pow2_unfold(1076);
    lemma_units_of_power(1073);
    lemma_units_of_power(1075);
    lemma_pow2_unfold(1074);
    assert(units(0) == 0) by (nonlinear_arith);
    let a = sum(c(C_0_45), w.q_prefill);
    lemma_sum_error(c(C_0_45), w.q_prefill, 1075);
    let b = sum(a, w.q_decode);
    lemma_sum_error(a, w.q_decode, 1076);
    let load = 45 * k + 100 * w.q_prefill.value() + 100 * w.q_decode.value();
    assert(100 * b.value() - load <= 16 * g && load - 100 * b.value() <= 16 * g);
    assert(c(C_0_50).value() == pow2(1073) && c(C_2_00).value() == pow2(1075));
    assert(clamped(b, c(C_0_50), c(C_2_00)) == b);
    lemma_value_order(b, zero());
    assert(!b.negative());
    let m = base as nat;
    let z = b.value() as nat;
    lemma_count_is_exact(m);
    let n = (m * k) * z;
    lemma_pow2_adds(12, 1074);
    assert(m * z <= 2000 * k) by (nonlinear_arith)
        requires
            m <= 1000,
            z <= 2 * k,
    ;
    assert(n < pow2(1086) * k) by (nonlinear_arith)
        requires
            n == (m * k) * z,
            m * z <= 2000 * k,
            pow2(1086) == 4096 * k,
            k > 0,
    ;
    lemma_ratio_error(n, k, 1086);
    let v = units(nearest(n, k));
    let e = pow2(1032) as int;
    lemma_pow2_adds(5, 1027);
    assert(v - m * z <= e && m * z - v <= e) by (nonlinear_arith)
        requires
            v * k - n <= k * e,
            n - v * k <= k * e,
            n == (m * k) * z,
            k > 0,
    ;
    assert(100 * (m * z) - m * load <= 16000 * g && m * load - 100 * (m * z) <= 16000 * g)
        by (nonlinear_arith)
        requires
            100 * z - load <= 16 * g,
            load - 100 * z <= 16 * g,
            0 <= m <= 1000,
            g > 0,
    ;
    assert(product(of_nat(m), b) == signed(false, nearest(n, k)));
    vstd::arithmetic::div_mod::lemma_fundamental_div_mod((2 * v + k) as int, (2 * k) as int);
    let t = (2 * v + k) / (2 * k);
    let r = (2 * v + k) % (2 * k);
    assert(2 * v + k == (2 * k) * t + r && 0 <= r < 2 * k);
    assert((2 * k) * t == 2 * (t * k) && 100 * t * k == 100 * (t * k)) by (nonlinear_arith);
    assert(t <= u64::MAX) by (nonlinear_arith)
        requires
            2 * (t * k) <= 2 * (2001 * k) + k,
            k > 0,
    ;
    assert(rounded(product(of_nat(m), b)) == t);
    if t < 4 {
        assert(t * k <= 3 * k) by (nonlinear_arith)
            requires
                t <= 3,
                k > 0,
        ;
    } else if t > 64 {
        assert(t * k >= 65 * k) by (nonlinear_arith)
            requires
                t >= 65,
                k > 0,
        ;
    }
}

/// Every value goes to exactly one label, and a label's values keep their order.
pub proof fn labels_split_values(values: Seq<Real>, labels: Seq<bool>, v: Real, label: bool)
    requires
        values.len() == labels.len(),
    ensures
        labelled(values.push(v), labels.push(label), label) == labelled(values, labels, label).push(
            v,
        ),
        labelled(values.push(v), labels.push(label), !label) == labelled(values, labels, !label),
{
    assert(values.push(v).drop_last() =~= values);
    assert(labels.push(label).drop_last() =~= labels);
}

/// A window's requests, served or not, count under its own label alone; requests shed gracefully
/// count where prefill is heavy.
pub proof fn windows_add_up(live: Seq<FleetWindowResult>, w: FleetWindowResult)
    ensures
        requests_in(live.push(w), w.prefill_heavy) == requests_in(live, w.prefill_heavy) + w.ok
            + w.errors,
        requests_in(live.push(w), !w.prefill_heavy) == requests_in(live, !w.prefill_heavy),
        w.prefill_heavy ==> shed_in_heavy(live.push(w)) == shed_in_heavy(live) + w.errors_graceful,
        !w.prefill_heavy ==> shed_in_heavy(live.push(w)) == shed_in_heavy(live),
{
    assert(live.push(w).drop_last() =~= live);
}

/// Whether a root keeps signals between zero and one.
pub open spec fn is_root<F: Fn(Real) -> Real>(sqrt: F) -> bool {
    forall|x: Real|
        x.finite() && x.value() >= 0 ==> (#[trigger] value_at(sqrt, x)).finite() && value_at(
            sqrt,
            x,
        ).value() >= 0 && (is_signal(x) ==> is_signal(value_at(sqrt, x)))
}

proof fn lemma_labelled(values: Seq<Real>, labels: Seq<bool>, wanted: bool)
    requires
        values.len() == labels.len(),
        forall|i: int| 0 <= i < values.len() ==> is_signal(#[trigger] values[i]),
    ensures
        labelled(values, labels, wanted).len() <= values.len(),
        forall|i: int|
            0 <= i < labelled(values, labels, wanted).len() ==> is_signal(
                #[trigger] labelled(values, labels, wanted)[i],
            ),
    decreases values.len(),
{
    if values.len() > 0 {
        let rest = values.drop_last();
        assert forall|i: int| 0 <= i < rest.len() implies is_signal(#[trigger] rest[i]) by {
            assert(is_signal(values[i]));
        }
        lemma_labelled(rest, labels.drop_last(), wanted);
        assert(is_signal(values[values.len() - 1]));
    }
}

/// The average of signals is finite and not below zero.
proof fn lemma_average(values: Seq<Real>)
    requires
        0 < values.len() <= 1000,
        forall|i: int| 0 <= i < values.len() ==> is_signal(#[trigger] values[i]),
    ensures
        average(values).finite(),
        0 <= average(values).value() <= pow2(1077),
{
    let k = pow2(1074);
    lemma_add_signals(values);
    lemma_count_is_exact(values.len());
    lemma_pow2_pos(1074);
    lemma_pow2_pos(1032);
    lemma2_to64();
    lemma2_to64_rest();
    lemma_pow2_adds(42, 1032);
    lemma_pow2_adds(2, 1074);
    lemma_pow2_adds(3, 1074);
    assert(units(0) == 0) by (nonlinear_arith);
    let a = add_all(zero(), values);
    let n = values.len();
    lemma_not_below(a);
    let (x, y) = (a.value() as nat, n * k);
    assert(n * pow2(1032) <= n * k) by (nonlinear_arith)
        requires
            pow2(1032) <= k,
    ;
    assert(y > 0) by (nonlinear_arith)
        requires
            y == n * k,
            n > 0,
            k > 0,
    ;
    assert(x * k < pow2(1076) * y) by (nonlinear_arith)
        requires
            x <= 2 * y,
            pow2(1076) == 4 * k,
            y > 0,
            k > 0,
    ;
    lemma_ratio_error(x * k, y, 1076);
    let c = of_nat(n);
    lemma_value_order(c, zero());
    let m = nearest(x * k, y);
    let v = units(m);
    lemma_pow2_adds(52, 1022);
    lemma_pow2_pos(1022);
    assert(v <= 8 * k) by (nonlinear_arith)
        requires
            v * y - x * k <= y * pow2(1022),
            x <= 2 * y,
            pow2(1022) <= k,
            y > 0,
    ;
    assert(average(values).magnitude() == m);
    if a.negative() {
        assert(x == 0);
        assert(x * k == 0) by (nonlinear_arith)
            requires
                x == 0,
        ;
        crate::binary64::lemma_nearest_bound(0, y, 0);
    }
}

/// The correlation has the sign of the difference of the means: it is not below zero where heavy
/// windows have the larger values on average, and not above zero where they have the smaller.
pub proof fn correlation_has_the_sign_of_the_means<F: Fn(Real) -> Real>(
    values: Seq<Real>,
    labels: Seq<bool>,
    sqrt: F,
)
    requires
        is_root(sqrt),
        values.len() == labels.len(),
        0 < values.len() <= 1000,
        forall|i: int| 0 <= i < values.len() ==> is_signal(#[trigger] values[i]),
        labelled(values, labels, true).len() > 0,
        labelled(values, labels, false).len() > 0,
        value_at(
            sqrt,
            quotient(add_all(zero(), squares(values, average(values))), of_nat(values.len())),
        ).finite(),
    ensures
        average(labelled(values, labels, false)).at_most(average(labelled(values, labels, true)))
            ==> zero().at_most(correlation(values, labels, sqrt)),
        average(labelled(values, labels, true)).at_most(average(labelled(values, labels, false)))
            ==> correlation(values, labels, sqrt).at_most(zero()),
{
    let high = labelled(values, labels, true);
    let low = labelled(values, labels, false);
    lemma_labelled(values, labels, true);
    lemma_labelled(values, labels, false);
    lemma_average(high);
    lemma_average(low);
    assert(units(0) == 0) by (nonlinear_arith);
    let spread = value_at(
        sqrt,
        quotient(add_all(zero(), squares(values, average(values))), of_nat(values.len())),
    );
    let floor = Real { bits: SPREAD_FLOOR_BITS };
    if !spread.at_most(floor) {
        let d = difference(average(high), average(low));
        lemma_difference(average(high), average(low));
        lemma_spread_floor(spread);
        lemma_root_of_shares(high.len(), values.len(), sqrt);
        let p = quotient(of_nat(high.len()), of_nat(values.len()));
        let r = value_at(sqrt, product(p, difference(one(), p)));
        lemma_sign_of_product(d, spread, r);
        if values.len() >= 2 {
            assert(correlation(values, labels, sqrt) == product(quotient(d, spread), r));
        }
    }
}

proof fn lemma_difference(a: Real, b: Real)
    requires
        a.finite(),
        b.finite(),
        0 <= a.value() <= pow2(1077),
        0 <= b.value() <= pow2(1077),
    ensures
        difference(a, b).finite(),
        -pow2(1079) <= difference(a, b).value() <= pow2(1079),
        b.value() <= a.value() ==> difference(a, b).value() >= 0,
        a.value() <= b.value() ==> difference(a, b).value() <= 0,
{
    let n = negation(b);
    assert(units(0) == 0) by (nonlinear_arith);
    lemma_pow2_pos(1077);
    lemma_pow2_unfold(1078);
    lemma_pow2_unfold(1079);
    lemma_pow2_strictly_increases(1024, 1077);
    assert(n.finite() && n.value() == -b.value());
    lemma_sum_error(a, n, 1078);
    lemma_sum_value(a, n);
}

proof fn lemma_spread_floor(spread: Real)
    requires
        spread.finite(),
        !spread.at_most(Real { bits: SPREAD_FLOOR_BITS }),
    ensures
        spread.value() >= pow2(1034),
        !spread.negative(),
{
    let floor = Real { bits: SPREAD_FLOOR_BITS };
    lemma2_to64();
    lemma2_to64_rest();
    lemma_pow2_adds(52, 982);
    lemma_pow2_pos(982);
    assert(crate::binary64::significand(SPREAD_FLOOR_BITS) == 0x11_9799_812d_ea11);
    assert(crate::binary64::shift(SPREAD_FLOOR_BITS) == 982);
    assert(floor.value() >= pow2(1034));
    lemma_pow2_pos(1034);
}

/// A share times what it leaves of one is a signal, and so is its root.
proof fn lemma_root_of_shares<F: Fn(Real) -> Real>(part: nat, whole: nat, sqrt: F)
    requires
        is_root(sqrt),
        0 < part <= whole <= 1000,
    ensures
        ({
            let p = quotient(of_nat(part), of_nat(whole));
            is_signal(value_at(sqrt, product(p, difference(one(), p))))
        }),
{
    lemma2_to64();
    lemma_count_is_exact(part);
    lemma_count_is_exact(whole);
    lemma_pow2_pos(1074);
    let k = pow2(1074);
    assert(part * k <= whole * k && whole * k > 0 && part * k >= 0) by (nonlinear_arith)
        requires
            part <= whole,
            whole > 0,
            k > 0,
    ;
    lemma_part(of_nat(part), of_nat(whole));
    let p = quotient(of_nat(part), of_nat(whole));
    lemma_rest(p);
    lemma_product(p, difference(one(), p));
}

/// The sign of a quotient by a positive number, times a signal.
proof fn lemma_sign_of_product(d: Real, spread: Real, r: Real)
    requires
        d.finite(),
        -pow2(1079) <= d.value() <= pow2(1079),
        spread.finite(),
        !spread.negative(),
        spread.value() >= pow2(1034),
        is_signal(r),
    ensures
        d.value() >= 0 ==> zero().at_most(product(quotient(d, spread), r)),
        d.value() <= 0 ==> product(quotient(d, spread), r).at_most(zero()),
{
    let k = pow2(1074);
    lemma_pow2_pos(1034);
    lemma_pow2_pos(1074);
    lemma_value_order(spread, zero());
    lemma_value_order(d, zero());
    lemma_not_below(r);
    assert(units(0) == 0) by (nonlinear_arith);
    let (x, y, z) = (units(d.magnitude()), units(spread.magnitude()), units(r.magnitude()));
    lemma_pow2_adds(1079, 1074);
    lemma_pow2_adds(1120, 1034);
    lemma_pow2_strictly_increases(2153, 2154);
    assert(x * k < pow2(1120) * y) by (nonlinear_arith)
        requires
            x <= pow2(1079),
            pow2(1079) * k < pow2(1120) * pow2(1034),
            pow2(1034) <= y,
    ;
    lemma_ratio_error(x * k, y, 1120);
    let q = quotient(d, spread);
    let m = nearest(x * k, y);
    assert(q.magnitude() == m && q.finite());
    lemma_pow2_adds(1066, 54);
    lemma_pow2_unfold(1121);
    lemma_pow2_unfold(1122);
    lemma_pow2_pos(1120);
    lemma_pow2_strictly_increases(1066, 1120);
    let u = units(m);
    assert(u <= pow2(1121)) by (nonlinear_arith)
        requires
            u * y - x * k <= y * pow2(1066),
            x * k < pow2(1120) * y,
            pow2(1066) <= pow2(1120),
            pow2(1121) == 2 * pow2(1120),
            y > 0,
    ;
    assert(u * z < pow2(1122) * k) by (nonlinear_arith)
        requires
            u <= pow2(1121),
            z <= k,
            pow2(1122) == 2 * pow2(1121),
            pow2(1121) > 0,
            k > 0,
    ;
    lemma_ratio_error(u * z, k, 1122);
    let t = product(q, r);
    let w = nearest(u * z, k);
    assert(t.magnitude() == w && t.finite());
    if d.magnitude() == 0 {
        assert(x * k == 0) by (nonlinear_arith)
            requires
                x == 0,
        ;
        crate::binary64::lemma_nearest_bound(0, y, 0);
        assert(u * z == 0) by (nonlinear_arith)
            requires
                u == 0,
        ;
        crate::binary64::lemma_nearest_bound(0, k, 0);
    }
    if r.negative() {
        assert(u * z == 0) by (nonlinear_arith)
            requires
                z == 0,
        ;
        crate::binary64::lemma_nearest_bound(0, k, 0);
    }
}

/// A pilot passes only on windows that were held out, with the correlation asked for and a larger
/// share in heavy windows than in light ones; it passes if heavy windows have at least a twentieth
/// more, up to `2^-44`.
pub proof fn pilots_pass_on_held_out_windows<F: Fn(Real) -> Real>(
    r: FleetPilotReport,
    windows: Seq<TraceWindow>,
    min: Real,
    sqrt: F,
)
    requires
        reports(r, windows, min, sqrt),
        is_signal(r.heldout_mean_pi_heavy),
        is_signal(r.heldout_mean_pi_light),
    ensures
        ({
            let heavy = r.heldout_mean_pi_heavy.value();
            let light = r.heldout_mean_pi_light.value();
            &&& r.heldout_windows + r.train_windows == windows.len()
            &&& r.gate_pass ==> r.heldout_windows > 0 && min.at_most(r.heldout_correlation) && light
                < heavy
            &&& r.heldout_windows > 0 && min.at_most(r.heldout_correlation) && 20 * (heavy - light)
                >= pow2(1074) + pow2(1030) ==> r.gate_pass
        }),
{
    lemma_hundredths();
    lemma2_to64();
    lemma2_to64_rest();
    lemma_pow2_pos(1021);
    lemma_pow2_adds(6, 1021);
    lemma_pow2_adds(9, 1021);
    lemma_pow2_adds(53, 1021);
    lemma_pow2_unfold(1075);
    let light = r.heldout_mean_pi_light;
    lemma_sum_error(light, c(C_0_05), 1075);
    assert(crate::binary64::significand(C_0_05) == 0x19_9999_9999_999a);
}

} // verus!
