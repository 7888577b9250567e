//! What the evidence for a change must show: trained multipliers, goodput, graduation and the cost
//! of moving a session, in numbers.

use vstd::prelude::*;
use vstd::arithmetic::power2::{
    lemma2_to64, lemma2_to64_rest, lemma_pow2_adds, lemma_pow2_pos, lemma_pow2_unfold, pow2,
};
use crate::binary64::{
    absolute, difference, lemma_count_is_exact, lemma_ratio_error, lemma_sum_error,
    lemma_value_order, negation, of_nat, product, quotient, signed, sum, truncated, units, zero,
    Real,
};
use crate::demand::{is_signal, lemma_part};
use crate::elementary::value_at;
use crate::factors::{apart, corrected, corrector_ceiling, corrector_floor, is_core, is_log_sized};
use crate::graduation::{healthy, outcome, GraduationGate, GraduationStage};
use crate::ledger::push_bounded;
use crate::migration::{
    copied_down, error_sum, redirtied, stall_limit, MigrationBudget, MigrationStallSample,
    QuiesceModel,
};
use crate::rounding::{nearest, HIDDEN_BIT};
use crate::shadow::{
    comparable, comparable_count, goodput, improved_count, improves, observed_seconds, ratio_bits,
    sample_ratio, trained_delta, CorrectorShadowSample, ERROR_MARGIN_BITS,
};
use crate::stats::{ascending, percentile_index, percentile_of};

verus! {

/// The whole part of a share of a count.
proof fn lemma_whole_part(n: nat, s: Real)
    requires
        n < 0x100_0000_0000,
        is_signal(s),
        !s.negative(),
    ensures
        ({
            let p = product(of_nat(n), s);
            let t = truncated(p);
            &&& product(s, of_nat(n)) == p
            &&& t * pow2(1074) <= n * s.value() + pow2(1061)
            &&& n * s.value() < (t + 1) * pow2(1074) + pow2(1061)
        }),
{
    let k = pow2(1074);
    lemma_pow2_pos(1074);
    lemma_pow2_pos(1061);
    lemma2_to64();
    lemma2_to64_rest();
    lemma_count_is_exact(n);
    let x = s.value() as nat;
    let m = (n * k) * x;
    lemma_pow2_adds(41, 1074);
    assert(n * x <= 0x100_0000_0000 * k) by (nonlinear_arith)
        requires
            n < 0x100_0000_0000,
            x <= k,
    ;
    assert(m < pow2(1115) * k) by (nonlinear_arith)
        requires
            m == (n * k) * x,
            n * x <= 0x100_0000_0000 * k,
            pow2(1115) == 0x200_0000_0000 * k,
            k > 0,
    ;
    assert(x * (n * k) == m) by (nonlinear_arith)
        requires
            m == (n * k) * x,
    ;
    lemma_ratio_error(m, k, 1115);
    let v = units(nearest(m, k));
    let h = pow2(1061);
    assert(v - n * x <= h && n * x - v <= h) by (nonlinear_arith)
        requires
            v * k - m <= k * h,
            m - v * k <= k * h,
            m == (n * k) * x,
            k > 0,
    ;
    vstd::arithmetic::div_mod::lemma_fundamental_div_mod(v as int, k as int);
    let t = v / k;
    assert(k * t == t * k && (t + 1) * k == t * k + k) by (nonlinear_arith);
    lemma_pow2_adds(13, 1061);
    assert(t <= u64::MAX) by (nonlinear_arith)
        requires
            t * k <= 0x100_0000_0000 * k + k,
            k > 0,
    ;
}

/// The stall that a migration may cause is its share of the inter-token latency, cut to whole
/// microseconds.
pub proof fn stall_limit_in_numbers(b: MigrationBudget)
    requires
        b.itl_us < 0x100_0000_0000,
        is_signal(b.epsilon),
        b.epsilon.value() > 0,
    ensures
        stall_limit(b) * pow2(1074) <= b.itl_us * b.epsilon.value() + pow2(1061),
        b.itl_us * b.epsilon.value() < (stall_limit(b) + 1) * pow2(1074) + pow2(1061),
{
    lemma_value_order(b.epsilon, zero());
    assert(units(0) == 0) by (nonlinear_arith);
    lemma_whole_part(b.itl_us as nat, b.epsilon);
}

/// What is dirty after a pass is the dirtied share of what was copied, cut to whole bytes.
pub proof fn dirtied_again_in_numbers(dirty: u64, fraction: Real)
    requires
        dirty < 0x100_0000_0000,
        is_signal(fraction),
        !fraction.negative(),
    ensures
        redirtied(dirty, fraction) * pow2(1074) <= dirty * fraction.value() + pow2(1061),
        dirty * fraction.value() < (redirtied(dirty, fraction) + 1) * pow2(1074) + pow2(1061),
{
    lemma_whole_part(dirty as nat, fraction);
}

/// A window promotes by one stage exactly if its multiplier lies strictly inside its envelope, it
/// has no more violations than allowed and improves goodput as much as asked; any other returns to
/// shadow, which is a roll-back unless it was there.
pub proof fn promotion_needs_everything(
    stage: GraduationStage,
    delta: Real,
    improvement: Real,
    violations: u64,
    gate: GraduationGate,
)
    ensures
        ({
            let step = outcome(stage, healthy(delta, improvement, violations, gate));
            let good = {
                &&& delta.finite()
                &&& corrector_floor().value() < delta.value() < corrector_ceiling().value()
                &&& violations <= gate.max_violations
                &&& !improvement.is_nan() && !gate.min_goodput_improvement.is_nan()
                &&& gate.min_goodput_improvement.value() <= improvement.value()
            };
            &&& !good ==> step.stage == GraduationStage::Shadow
            &&& good && stage == GraduationStage::Shadow ==> step.stage == GraduationStage::Canary
            &&& good && stage != GraduationStage::Shadow ==> step.stage
                == GraduationStage::Production
            &&& step.rolled_back <==> !good && stage != GraduationStage::Shadow
        }),
{
}

/// The trained multiplier is the middle one of the ratios of the usable samples, held to its
/// envelope: as many lie on either side of it, up to one. Without a usable sample it is one.
pub proof fn trained_delta_is_the_median<F: Fn(Real) -> Real>(
    samples: Seq<CorrectorShadowSample>,
    exp: F,
)
    ensures
        ({
            let bits = ratio_bits(samples, exp);
            let t = ascending(bits);
            let mid = (bits.len() / 2) as int;
            &&& bits.len() == 0 ==> trained_delta(samples, exp) == crate::binary64::one()
            &&& bits.len() > 0 ==> {
                &&& t.to_multiset() == bits.to_multiset()
                &&& t.len() == bits.len()
                &&& forall|a: int, b: int| 0 <= a < b < t.len() ==> t[a] <= t[b]
                &&& 0 <= mid < t.len()
                &&& 2 * mid <= t.len() <= 2 * mid + 1
                &&& trained_delta(samples, exp) == corrected(Real { bits: t[mid] })
            }
        }),
{
    let bits = ratio_bits(samples, exp);
    let leq = |a: u64, b: u64| a <= b;
    bits.lemma_sort_by_ensures(leq);
    let t = ascending(bits);
    bits.to_multiset_ensures();
    t.to_multiset_ensures();
    assert(t.to_multiset() == bits.to_multiset());
    assert forall|a: int, b: int| 0 <= a < b < t.len() implies t[a] <= t[b] by {
        assert(leq(t[a], t[b]));
    }
}

/// A sample counts for training exactly if it has a time and a finite prediction above zero, and
/// then by its ratio, after those before it.
pub proof fn usable_samples_train<F: Fn(Real) -> Real>(
    samples: Seq<CorrectorShadowSample>,
    s: CorrectorShadowSample,
    exp: F,
)
    ensures
        ({
            let predicted = value_at(exp, s.analytic_ln);
            let usable = s.observed_us > 0 && s.analytic_ln.finite() && predicted.finite()
                && predicted.value() > 0;
            &&& usable ==> sample_ratio(s, exp) is Some && ratio_bits(samples.push(s), exp)
                == ratio_bits(samples, exp).push(sample_ratio(s, exp)->0.bits)
            &&& !usable ==> sample_ratio(s, exp) is None && ratio_bits(samples.push(s), exp)
                == ratio_bits(samples, exp)
        }),
{
    assert(samples.push(s).drop_last() =~= samples);
    assert(units(0) == 0) by (nonlinear_arith);
}

/// The ratio of a sample in numbers: times the predicted time it is the measured one, up to one
/// part in `2^47`, where it lies between a hundredth and a hundred.
pub proof fn sample_ratio_in_numbers<F: Fn(Real) -> Real>(s: CorrectorShadowSample, exp: F)
    requires
        sample_ratio(s, exp) is Some,
        ({
            let p = value_at(exp, s.analytic_ln).value();
            let o = observed_seconds(s.observed_us);
            &&& o.finite() && !o.negative()
            &&& p <= 100 * o.value()
            &&& o.value() <= 100 * p
        }),
    ensures
        apart(
            sample_ratio(s, exp)->0.value() * value_at(exp, s.analytic_ln).value(),
            observed_seconds(s.observed_us).value() * pow2(1074),
        ) <= value_at(exp, s.analytic_ln).value() * pow2(1027),
{
    let p = value_at(exp, s.analytic_ln);
    let o = observed_seconds(s.observed_us);
    let k = pow2(1074);
    lemma_pow2_pos(1074);
    lemma2_to64();
    lemma2_to64_rest();
    assert(units(0) == 0) by (nonlinear_arith);
    lemma_value_order(p, zero());
    let (a, b) = (o.value() as nat, p.value() as nat);
    let n = a * k;
    lemma_pow2_adds(7, 1074);
    assert(n < pow2(1081) * b) by (nonlinear_arith)
        requires
            n == a * k,
            a <= 100 * b,
            b > 0,
            k > 0,
            pow2(1081) == 128 * k,
    ;
    lemma_ratio_error(n, b, 1081);
    let q = quotient(o, p);
    let m = nearest(n, b);
    assert(q == signed(false, m));
    let v = units(m);
    let h = pow2(1027);
    lemma_pow2_adds(47, 1027);
    lemma_pow2_pos(1027);
    // Within the limits by a wide margin.
    assert(200 * v >= k && v <= 200 * k) by (nonlinear_arith)
        requires
            v * b - n <= b * h,
            n - v * b <= b * h,
            n == a * k,
            a <= 100 * b,
            b <= 100 * a,
            b > 0,
            k == 0x8000_0000_0000 * h,
            h > 0,
    ;
    let lo = Real { bits: crate::shadow::RATIO_FLOOR_BITS };
    let hi = Real { bits: crate::shadow::RATIO_CEILING_BITS };
    lemma_pow2_adds(61, 1002);
    lemma_pow2_adds(11, 1063);
    lemma_pow2_pos(1002);
    assert(crate::binary64::significand(crate::shadow::RATIO_FLOOR_BITS) == 0x10_c6f7_a0b5_ed8d);
    assert(crate::binary64::shift(crate::shadow::RATIO_FLOOR_BITS) == 1002);
    assert(crate::binary64::significand(crate::shadow::RATIO_CEILING_BITS) == 0x1e_8480_0000_0000);
    assert(crate::binary64::shift(crate::shadow::RATIO_CEILING_BITS) == 1041);
    lemma_pow2_adds(33, 1041);
    lemma_pow2_pos(1041);
    assert(200 * lo.value() <= k);
    assert(hi.value() >= 200 * k);
}

/// Goodput in numbers: the improved samples over the comparable ones, up to `2^-53`; none without
/// comparable samples.
pub proof fn goodput_in_numbers<F: Fn(Real) -> Real>(
    samples: Seq<CorrectorShadowSample>,
    delta: Real,
    ln: F,
)
    requires
        samples.len() < HIDDEN_BIT,
    ensures
        ({
            let good = improved_count(samples, delta, ln);
            let all = comparable_count(samples);
            &&& good <= all <= samples.len()
            &&& all == 0 ==> goodput(samples, delta, ln) == zero()
            &&& all > 0 ==> apart(
                goodput(samples, delta, ln).value() * all,
                good * pow2(1074) as int,
            ) <= all * pow2(1021)
        }),
{
    lemma_counts(samples, delta, ln);
    let good = improved_count(samples, delta, ln);
    let all = comparable_count(samples);
    if all > 0 {
        lemma_count_is_exact(good);
        lemma_count_is_exact(all);
        let z = pow2(1074) as int;
        lemma_pow2_pos(1074);
        let (x, y) = (good as int, all as int);
        assert(0 <= x * z <= y * z && y * z > 0) by (nonlinear_arith)
            requires
                0 <= x <= y,
                y > 0,
                z > 0,
        ;
        lemma_part(of_nat(good), of_nat(all));
        let (v, h) = (goodput(samples, delta, ln).value(), pow2(1021) as int);
        assert(v * y - x * z <= y * h && x * z - v * y <= y * h) by (nonlinear_arith)
            requires
                v * (y * z) - (x * z) * z <= (y * z) * h,
                (x * z) * z - v * (y * z) <= (y * z) * h,
                z > 0,
        ;
    }
}

proof fn lemma_counts<F: Fn(Real) -> Real>(
    samples: Seq<CorrectorShadowSample>,
    delta: Real,
    ln: F,
)
    ensures
        improved_count(samples, delta, ln) <= comparable_count(samples) <= samples.len(),
    decreases samples.len(),
{
    if samples.len() > 0 {
        lemma_counts(samples.drop_last(), delta, ln);
    }
}

/// One more sample counts once if it has a time and a finite prediction, and as improved if the
/// corrected prediction is closer to what was measured. Closer means in logarithms, by more than a
/// margin of `1e-12`; within `2^-29` of that either answer may come.
pub proof fn improvement_means_closer<F: Fn(Real) -> Real>(
    samples: Seq<CorrectorShadowSample>,
    s: CorrectorShadowSample,
    delta: Real,
    ln: F,
)
    requires
        s.observed_us > 0,
        is_log_sized(s.analytic_ln),
        is_core(observed_seconds(s.observed_us)),
        is_log_sized(value_at(ln, observed_seconds(s.observed_us))),
        is_log_sized(value_at(ln, corrected(delta))),
    ensures
        ({
            let o = value_at(ln, observed_seconds(s.observed_us)).value();
            let a = s.analytic_ln.value();
            let l = value_at(ln, corrected(delta)).value();
            let before = apart(a, o);
            let after = apart(a + l, o);
            let more = improved_count(samples.push(s), delta, ln) - improved_count(
                samples,
                delta,
                ln,
            );
            &&& comparable_count(samples.push(s)) == comparable_count(samples) + 1
            &&& after + pow2(1045) <= before ==> more == 1
            &&& before + pow2(1045) <= after ==> more == 0
        }),
{
    assert(samples.push(s).drop_last() =~= samples);
    let o = value_at(ln, observed_seconds(s.observed_us));
    let a = s.analytic_ln;
    let l = value_at(ln, corrected(delta));
    lemma2_to64();
    lemma2_to64_rest();
    lemma_pow2_pos(1034);
    lemma_pow2_adds(50, 1034);
    lemma_pow2_adds(54, 1034);
    lemma_pow2_adds(11, 1034);
    let n = negation(o);
    assert(units(0) == 0) by (nonlinear_arith);
    assert(n.finite() && n.value() == -o.value());
    lemma_sum_error(a, n, 1088);
    lemma_sum_error(a, l, 1088);
    let b = sum(a, l);
    lemma_sum_error(b, n, 1088);
    let plain = absolute(difference(a, o));
    let adjusted = absolute(difference(b, o));
    let margin = Real { bits: ERROR_MARGIN_BITS };
    lemma_pow2_adds(52, 982);
    lemma_pow2_pos(982);
    assert(crate::binary64::significand(ERROR_MARGIN_BITS) == 0x11_9799_812d_ea11);
    assert(crate::binary64::shift(ERROR_MARGIN_BITS) == 982);
    lemma_pow2_adds(1, 1034);
    lemma_pow2_adds(53, 982);
    lemma_pow2_unfold(1035);
    assert(0 <= margin.value() <= 2 * pow2(1034));
    lemma_sum_error(adjusted, margin, 1088);
}

/// A percentile in numbers: the sample, in ascending order, with that many percent of the samples
/// before it, or the last.
pub proof fn percentile_in_numbers(samples: Seq<u64>, percent: nat)
    requires
        samples.len() > 0,
        percent <= 100,
    ensures
        ({
            let t = ascending(samples);
            let i = percentile_index(samples.len(), percent);
            &&& t.to_multiset() == samples.to_multiset()
            &&& t.len() == samples.len()
            &&& forall|a: int, b: int| 0 <= a < b < t.len() ==> t[a] <= t[b]
            &&& 0 <= i < t.len()
            &&& 100 * i <= percent * samples.len()
            &&& i == t.len() - 1 || percent * samples.len() < 100 * (i + 1)
            &&& percentile_of(samples, percent) == t[i]
        }),
{
    let leq = |a: u64, b: u64| a <= b;
    samples.lemma_sort_by_ensures(leq);
    let t = ascending(samples);
    samples.to_multiset_ensures();
    t.to_multiset_ensures();
    assert(t.to_multiset() == samples.to_multiset());
    assert forall|a: int, b: int| 0 <= a < b < t.len() implies t[a] <= t[b] by {
        assert(leq(t[a], t[b]));
    }
    let n = samples.len();
    assert(n * percent == percent * n && percent * n >= 0 && n * percent <= 100 * n)
        by (nonlinear_arith)
        requires
            percent <= 100,
    ;
}

/// A bounded log keeps what came last: the new entry at its end and before it those that were
/// there, without the oldest once it is full.
pub proof fn logs_keep_the_latest<T>(log: Seq<T>, max: nat, entry: T, i: int)
    requires
        0 < max,
        log.len() <= max,
    ensures
        ({
            let t = push_bounded(log, max, entry);
            &&& t.len() == if log.len() == max {
                max
            } else {
                log.len() + 1
            }
            &&& t.last() == entry
            &&& 0 <= i < t.len() - 1 ==> t[t.len() - 2 - i] == log[log.len() - 1 - i]
        }),
{
}

/// The time to copy some bytes in numbers: whole chunks, the fewest that hold them, at so much
/// each.
pub proof fn copy_time_in_numbers(model: QuiesceModel, bytes: u64, chunks: nat)
    requires
        model.chunk_bytes > 0,
        (chunks - 1) * model.chunk_bytes < bytes <= chunks * model.chunk_bytes,
        chunks * model.per_chunk_us <= u64::MAX,
    ensures
        model.copy_time(bytes) == chunks * model.per_chunk_us,
{
    let (b, c, n) = (bytes as int, model.chunk_bytes as int, chunks as int);
    assert((n - 1) * c == n * c - c && c * n == n * c) by (nonlinear_arith);
    let r = b + c - 1 - n * c;
    vstd::arithmetic::div_mod::lemma_fundamental_div_mod_converse(b + c - 1, c, n, r);
}

/// One more migration adds the distance between its estimate and its measurement.
pub proof fn stall_errors_add_up(samples: Seq<MigrationStallSample>, s: MigrationStallSample)
    ensures
        error_sum(Seq::empty()) == 0,
        error_sum(samples.push(s)) == error_sum(samples) + apart(
            s.estimated_us as int,
            s.measured_us as int,
        ),
{
    assert(samples.push(s).drop_last() =~= samples);
}

/// What fits into a chunk is not copied at all; anything else is copied and then only what was
/// dirtied meanwhile is left, for as many passes as are allowed.
pub proof fn copying_goes_pass_by_pass(dirty: u64, chunk: u64, fraction: Real, passes: u32)
    requires
        passes < u32::MAX,
    ensures
        copied_down(dirty, 0, chunk, fraction, 0) == (0u32, dirty),
        dirty <= chunk ==> copied_down(dirty, 0, chunk, fraction, passes) == (0u32, dirty),
        dirty > chunk ==> copied_down(dirty, 0, chunk, fraction, (passes + 1) as u32).1
            == copied_down(redirtied(dirty, fraction), 0, chunk, fraction, passes).1,
        dirty > chunk ==> copied_down(dirty, 0, chunk, fraction, (passes + 1) as u32).0
            == copied_down(redirtied(dirty, fraction), 0, chunk, fraction, passes).0 + 1,
{
    if dirty > chunk {
        lemma_passes_shift(redirtied(dirty, fraction), 0, chunk, fraction, passes);
    }
}

proof fn lemma_passes_shift(dirty: u64, done: u32, chunk: u64, fraction: Real, passes: u32)
    requires
        done <= passes < u32::MAX,
    ensures
        copied_down(dirty, (done + 1) as u32, chunk, fraction, (passes + 1) as u32).1
            == copied_down(dirty, done, chunk, fraction, passes).1,
        copied_down(dirty, (done + 1) as u32, chunk, fraction, (passes + 1) as u32).0
            == copied_down(dirty, done, chunk, fraction, passes).0 + 1,
    decreases passes - done,
{
    if dirty > chunk && done < passes {
        lemma_passes_shift(
            redirtied(dirty, fraction),
            (done + 1) as u32,
            chunk,
            fraction,
            passes,
        );
    }
}

} // verus!
