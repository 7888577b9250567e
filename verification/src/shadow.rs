//! Shadow telemetry: what the cost model predicted and what was measured.

use vstd::prelude::*;
use crate::binary64::{
    absolute, clamped, difference, lemma_value_order, of_nat, one, quotient, sum, zero, Real,
    ONE_BITS,
};
use crate::elementary::{evaluate, is_function, value_at};
use crate::factors::{
    corrected, corrector_ceiling, corrector_floor, counts_add_up, finite_or_highest, is_core,
    most_expensive, outside_envelope, unusable_time, ClampEvents, Corrector, Cost, TimeCore,
};
use crate::ledger::push_bounded;
use crate::params::{CORRECTOR_CEILING_BITS, CORRECTOR_FLOOR_BITS};
use crate::stats::{ascending, sorted};

verus! {

/// Lowest ratio of measurement to prediction that counts (1e-6), as a bit pattern.
pub const RATIO_FLOOR_BITS: u64 = 0x3eb0_c6f7_a0b5_ed8d;

/// Highest ratio of measurement to prediction that counts (1e6), as a bit pattern.
pub const RATIO_CEILING_BITS: u64 = 0x412e_8480_0000_0000;

/// Improvement below which a correction is no better (1e-12), as a bit pattern.
pub const ERROR_MARGIN_BITS: u64 = 0x3d71_9799_812d_ea11;

/// One prefill: what was predicted and what was measured.
#[derive(Debug, PartialEq, Eq)]
pub struct CorrectorShadowSample {
    pub prompt_tokens: u64,
    pub analytic_ln: Real,
    pub observed_us: u64,
    pub pool_pi: Real,
    pub backend_label: String,
}

/// One prefill, as the contracts see it.
pub struct PrefillRow {
    pub prompt_tokens: u64,
    pub analytic_ln: Real,
    pub observed_us: u64,
    pub pool_pi: Real,
    pub label: Seq<char>,
}

impl View for CorrectorShadowSample {
    type V = PrefillRow;

    open spec fn view(&self) -> PrefillRow {
        PrefillRow {
            prompt_tokens: self.prompt_tokens,
            analytic_ln: self.analytic_ln,
            observed_us: self.observed_us,
            pool_pi: self.pool_pi,
            label: self.backend_label@,
        }
    }
}

/// The rows of a log.
pub open spec fn prefill_rows(log: Seq<CorrectorShadowSample>) -> Seq<PrefillRow> {
    log.map_values(|s: CorrectorShadowSample| s@)
}

impl Clone for CorrectorShadowSample {
    fn clone(&self) -> (r: CorrectorShadowSample)
        ensures
            r == *self,
    {
        CorrectorShadowSample {
            prompt_tokens: self.prompt_tokens,
            analytic_ln: self.analytic_ln,
            observed_us: self.observed_us,
            pool_pi: self.pool_pi,
            backend_label: self.backend_label.clone(),
        }
    }
}

/// One KV transfer: what was predicted and what was measured.
#[derive(Debug, PartialEq, Eq)]
pub struct RdmaCostShadowSample {
    pub pf_label: String,
    pub dc_label: String,
    pub distance: u64,
    pub kv_bytes: u64,
    pub analytic_transfer_ln: Real,
    pub flat_penalty_ln: Real,
    pub observed_transfer_secs: Real,
}

/// One transfer, as the contracts see it.
pub struct TransferRow {
    pub prefill: Seq<char>,
    pub decode: Seq<char>,
    pub distance: u64,
    pub kv_bytes: u64,
    pub analytic_ln: Real,
    pub flat_ln: Real,
    pub observed_secs: Real,
}

impl View for RdmaCostShadowSample {
    type V = TransferRow;

    open spec fn view(&self) -> TransferRow {
        TransferRow {
            prefill: self.pf_label@,
            decode: self.dc_label@,
            distance: self.distance,
            kv_bytes: self.kv_bytes,
            analytic_ln: self.analytic_transfer_ln,
            flat_ln: self.flat_penalty_ln,
            observed_secs: self.observed_transfer_secs,
        }
    }
}

/// The rows of a log.
pub open spec fn transfer_rows(log: Seq<RdmaCostShadowSample>) -> Seq<TransferRow> {
    log.map_values(|s: RdmaCostShadowSample| s@)
}

impl Clone for RdmaCostShadowSample {
    fn clone(&self) -> (r: RdmaCostShadowSample)
        ensures
            r == *self,
    {
        RdmaCostShadowSample {
            pf_label: self.pf_label.clone(),
            dc_label: self.dc_label.clone(),
            distance: self.distance,
            kv_bytes: self.kv_bytes,
            analytic_transfer_ln: self.analytic_transfer_ln,
            flat_penalty_ln: self.flat_penalty_ln,
            observed_transfer_secs: self.observed_transfer_secs,
        }
    }
}

/// Recent prefills.
#[derive(Debug)]
pub struct CorrectorShadowLog {
    inner: Vec<CorrectorShadowSample>,
    max_samples: usize,
}

impl View for CorrectorShadowLog {
    type V = Seq<CorrectorShadowSample>;

    closed spec fn view(&self) -> Seq<CorrectorShadowSample> {
        self.inner@
    }
}

impl CorrectorShadowLog {
    /// How many samples are kept.
    pub closed spec fn limit(self) -> nat {
        self.max_samples as nat
    }

    /// An empty log that keeps at least one sample.
    pub fn new(max_samples: usize) -> (r: CorrectorShadowLog)
        ensures
            r@ == Seq::<CorrectorShadowSample>::empty(),
            r.limit() == if max_samples == 0 {
                1
            } else {
                max_samples as nat
            },
    {
        CorrectorShadowLog {
            inner: Vec::new(),
            max_samples: if max_samples == 0 {
                1
            } else {
                max_samples
            },
        }
    }

    /// Adds a sample; the oldest makes room.
    pub fn record(&mut self, sample: CorrectorShadowSample)
        requires
            old(self).limit() > 0,
        ensures
            final(self)@ == push_bounded(old(self)@, old(self).limit(), sample),
            final(self).limit() == old(self).limit(),
    {
        let ghost before = self.inner@;
        if self.inner.len() >= self.max_samples {
            self.inner.remove(0);
            assert(self.inner@ =~= before.drop_first());
        }
        self.inner.push(sample);
    }

    /// The samples, oldest first.
    pub fn samples(&self) -> (r: Vec<CorrectorShadowSample>)
        ensures
            r@ == self@,
    {
        let mut out: Vec<CorrectorShadowSample> = Vec::new();
        let n: usize = self.inner.len();
        for i in 0..n
            invariant
                n == self.inner@.len(),
                out@ =~= self.inner@.take(i as int),
        {
            out.push(self.inner[i].clone());
        }
        assert(out@ =~= self.inner@);
        out
    }

    pub fn len(&self) -> (r: usize)
        ensures
            r == self@.len(),
    {
        self.inner.len()
    }

    pub fn is_empty(&self) -> (r: bool)
        ensures
            r == (self@.len() == 0),
    {
        self.inner.len() == 0
    }
}

/// Recent transfers.
#[derive(Debug)]
pub struct RdmaCostShadowLog {
    inner: Vec<RdmaCostShadowSample>,
    max_samples: usize,
}

impl View for RdmaCostShadowLog {
    type V = Seq<RdmaCostShadowSample>;

    closed spec fn view(&self) -> Seq<RdmaCostShadowSample> {
        self.inner@
    }
}

impl RdmaCostShadowLog {
    /// How many samples are kept.
    pub closed spec fn limit(self) -> nat {
        self.max_samples as nat
    }

    /// An empty log that keeps at least one sample.
    pub fn new(max_samples: usize) -> (r: RdmaCostShadowLog)
        ensures
            r@ == Seq::<RdmaCostShadowSample>::empty(),
            r.limit() == if max_samples == 0 {
                1
            } else {
                max_samples as nat
            },
    {
        RdmaCostShadowLog {
            inner: Vec::new(),
            max_samples: if max_samples == 0 {
                1
            } else {
                max_samples
            },
        }
    }

    /// Adds a sample; the oldest makes room.
    pub fn record(&mut self, sample: RdmaCostShadowSample)
        requires
            old(self).limit() > 0,
        ensures
            final(self)@ == push_bounded(old(self)@, old(self).limit(), sample),
            final(self).limit() == old(self).limit(),
    {
        let ghost before = self.inner@;
        if self.inner.len() >= self.max_samples {
            self.inner.remove(0);
            assert(self.inner@ =~= before.drop_first());
        }
        self.inner.push(sample);
    }

    /// The samples, oldest first.
    pub fn samples(&self) -> (r: Vec<RdmaCostShadowSample>)
        ensures
            r@ == self@,
    {
        let mut out: Vec<RdmaCostShadowSample> = Vec::new();
        let n: usize = self.inner.len();
        for i in 0..n
            invariant
                n == self.inner@.len(),
                out@ =~= self.inner@.take(i as int),
        {
            out.push(self.inner[i].clone());
        }
        assert(out@ =~= self.inner@);
        out
    }

    pub fn len(&self) -> (r: usize)
        ensures
            r == self@.len(),
    {
        self.inner.len()
    }

    pub fn is_empty(&self) -> (r: bool)
        ensures
            r == (self@.len() == 0),
    {
        self.inner.len() == 0
    }
}

/// A measurement relative to a prediction, held within a million to one either way.
pub open spec fn held_ratio(observed: Real, predicted: Real) -> Real {
    clamped(
        quotient(observed, predicted),
        Real { bits: RATIO_FLOOR_BITS },
        Real { bits: RATIO_CEILING_BITS },
    )
}

fn ratio(observed: Real, predicted: Real) -> (r: Real)
    ensures
        r == held_ratio(observed, predicted),
{
    let lo: Real = Real::from_bits(RATIO_FLOOR_BITS);
    let hi: Real = Real::from_bits(RATIO_CEILING_BITS);
    proof {
        lemma_value_order(hi, lo);
    }
    observed.over(predicted).clamp_to(lo, hi)
}

/// Measured seconds of a prefill.
pub open spec fn observed_seconds(us: u64) -> Real {
    quotient(of_nat(us as nat), of_nat(1_000_000))
}

fn seconds_from_us(us: u64) -> (r: Real)
    ensures
        r == observed_seconds(us),
{
    Real::from_u64(us).over(Real::from_u64(1_000_000))
}

/// The ratio of a sample, if it has a measurement and a usable prediction.
pub open spec fn sample_ratio<F: Fn(Real) -> Real>(s: CorrectorShadowSample, exp: F) -> Option<Real> {
    let predicted = value_at(exp, s.analytic_ln);
    if s.observed_us == 0 || !s.analytic_ln.finite() || predicted.at_most(zero())
        || !predicted.finite() {
        None
    } else {
        Some(held_ratio(observed_seconds(s.observed_us), predicted))
    }
}

/// The bit patterns of the ratios of all usable samples, in order. Ratios are positive numbers, so
/// their patterns are ordered as they are.
pub open spec fn ratio_bits<F: Fn(Real) -> Real>(samples: Seq<CorrectorShadowSample>, exp: F) -> Seq<
    u64,
>
    decreases samples.len(),
{
    if samples.len() == 0 {
        Seq::empty()
    } else {
        let before = ratio_bits(samples.drop_last(), exp);
        match sample_ratio(samples.last(), exp) {
            Some(r) => before.push(r.bits),
            None => before,
        }
    }
}

/// The upper median of some ratios, or one without any.
pub open spec fn median_ratio(bits: Seq<u64>) -> Real {
    if bits.len() == 0 {
        one()
    } else {
        Real { bits: ascending(bits)[(bits.len() / 2) as int] }
    }
}

fn median(bits: Vec<u64>) -> (r: Real)
    ensures
        r == median_ratio(bits@),
{
    let n: usize = bits.len();
    if n == 0 {
        return Real::from_bits(ONE_BITS);
    }
    let ordered: Vec<u64> = sorted(bits);
    Real::from_bits(ordered[n / 2])
}

/// The multiplier learned from samples: their median ratio, held to the envelope.
pub open spec fn trained_delta<F: Fn(Real) -> Real>(
    samples: Seq<CorrectorShadowSample>,
    exp: F,
) -> Real {
    let bits = ratio_bits(samples, exp);
    if bits.len() == 0 {
        one()
    } else {
        corrected(median_ratio(bits))
    }
}

/// What learning a multiplier counts: one if the median ratio has to be held.
pub open spec fn training_clamps<F: Fn(Real) -> Real>(
    samples: Seq<CorrectorShadowSample>,
    exp: F,
) -> nat {
    let bits = ratio_bits(samples, exp);
    if bits.len() == 0 {
        0
    } else {
        outside_envelope(median_ratio(bits))
    }
}

/// Learns a multiplier; `exp` is the exponential function.
pub fn train_bounded_delta<F: Fn(Real) -> Real + Copy>(
    samples: &[CorrectorShadowSample],
    exp: F,
    events: &mut ClampEvents,
) -> (r: Real)
    requires
        is_function(exp),
    ensures
        r == trained_delta(samples@, exp),
        *final(events) == old(events).plus(training_clamps(samples@, exp)),
        corrector_floor().at_most(r),
        r.at_most(corrector_ceiling()),
{
    let n: usize = samples.len();
    let mut bits: Vec<u64> = Vec::new();
    for i in 0..n
        invariant
            is_function(exp),
            n == samples@.len(),
            bits@ == ratio_bits(samples@.take(i as int), exp),
    {
        assert(samples@.take(i + 1).drop_last() =~= samples@.take(i as int));
        assert(samples@.take(i + 1).last() == samples@[i as int]);
        let s = &samples[i];
        if s.observed_us != 0 && s.analytic_ln.is_finite() {
            let predicted: Real = evaluate(exp, s.analytic_ln);
            if !predicted.le(Real::from_bits(0)) && predicted.is_finite() {
                let r: Real = ratio(seconds_from_us(s.observed_us), predicted);
                bits.push(r.to_bits());
            }
        }
    }
    assert(samples@.take(n as int) =~= samples@);
    if bits.len() == 0 {
        proof {
            counts_add_up(*old(events), 0, 0);
        }
        return Corrector::identity().get();
    }
    Corrector::new(median(bits), events).get()
}

/// Seconds that a cost is compared with.
pub open spec fn usable_seconds(us: u64) -> Real {
    if is_core(observed_seconds(us)) {
        observed_seconds(us)
    } else {
        most_expensive()
    }
}

/// Whether a correction brings the prediction of a sample closer to its measurement.
pub open spec fn improves<F: Fn(Real) -> Real>(s: CorrectorShadowSample, delta: Real, ln: F) -> bool {
    let observed = value_at(ln, usable_seconds(s.observed_us));
    let plain = absolute(difference(finite_or_highest(s.analytic_ln), observed));
    let adjusted = absolute(
        difference(
            finite_or_highest(sum(s.analytic_ln, value_at(ln, corrected(delta)))),
            observed,
        ),
    );
    sum(adjusted, Real { bits: ERROR_MARGIN_BITS }).below(plain)
}

/// Whether a sample takes part in the comparison.
pub open spec fn comparable(s: CorrectorShadowSample) -> bool {
    s.observed_us != 0 && s.analytic_ln.finite()
}

/// How many samples take part.
pub open spec fn comparable_count(samples: Seq<CorrectorShadowSample>) -> nat
    decreases samples.len(),
{
    if samples.len() == 0 {
        0
    } else {
        comparable_count(samples.drop_last()) + if comparable(samples.last()) {
            1nat
        } else {
            0
        }
    }
}

/// How many samples a correction improves.
pub open spec fn improved_count<F: Fn(Real) -> Real>(
    samples: Seq<CorrectorShadowSample>,
    delta: Real,
    ln: F,
) -> nat
    decreases samples.len(),
{
    if samples.len() == 0 {
        0
    } else {
        improved_count(samples.drop_last(), delta, ln) + if comparable(samples.last()) && improves(
            samples.last(),
            delta,
            ln,
        ) {
            1nat
        } else {
            0
        }
    }
}

/// How many measured times cannot be used.
pub open spec fn observed_clamps(samples: Seq<CorrectorShadowSample>) -> nat
    decreases samples.len(),
{
    if samples.len() == 0 {
        0
    } else {
        observed_clamps(samples.drop_last()) + if comparable(samples.last()) {
            unusable_time(observed_seconds(samples.last().observed_us))
        } else {
            0
        }
    }
}

/// What judging a correction counts: one if it has to be held, and the times that cannot be used.
pub open spec fn goodput_clamps(samples: Seq<CorrectorShadowSample>, delta: Real) -> nat {
    if samples.len() == 0 {
        0
    } else {
        outside_envelope(delta) + observed_clamps(samples)
    }
}

/// The share of samples that a correction improves.
pub open spec fn goodput<F: Fn(Real) -> Real>(
    samples: Seq<CorrectorShadowSample>,
    delta: Real,
    ln: F,
) -> Real {
    if comparable_count(samples) == 0 {
        zero()
    } else {
        quotient(of_nat(improved_count(samples, delta, ln)), of_nat(comparable_count(samples)))
    }
}

/// Computes the share of samples that a correction improves; `ln` is the natural logarithm.
pub fn eval_goodput_improvement<F: Fn(Real) -> Real + Copy>(
    samples: &[CorrectorShadowSample],
    delta: Real,
    ln: F,
    events: &mut ClampEvents,
) -> (r: Real)
    requires
        is_function(ln),
    ensures
        r == goodput(samples@, delta, ln),
        *final(events) == old(events).plus(goodput_clamps(samples@, delta)),
{
    let n: usize = samples.len();
    let ghost start = *events;
    proof {
        counts_add_up(start, 0, 0);
    }
    if n == 0 {
        return Real::from_bits(0);
    }
    let corrector: Corrector = Corrector::new(delta, events);
    let ghost held = outside_envelope(delta);
    proof {
        counts_add_up(start, held, 0);
    }
    let mut improved: u64 = 0;
    let mut total: u64 = 0;
    for i in 0..n
        invariant
            is_function(ln),
            n == samples@.len(),
            corrector.delta() == corrected(delta),
            *events == start.plus(held + observed_clamps(samples@.take(i as int))),
            improved <= i,
            total <= i,
            total == comparable_count(samples@.take(i as int)),
            improved == improved_count(samples@.take(i as int), delta, ln),
    {
        assert(samples@.take(i + 1).drop_last() =~= samples@.take(i as int));
        assert(samples@.take(i + 1).last() == samples@[i as int]);
        let s = &samples[i];
        if s.observed_us != 0 && s.analytic_ln.is_finite() {
            let observed: TimeCore = TimeCore::clamped(seconds_from_us(s.observed_us), events);
            proof {
                counts_add_up(
                    start,
                    held + observed_clamps(samples@.take(i as int)),
                    unusable_time(observed_seconds(s.observed_us)),
                );
            }
            let observed_ln: Real = evaluate(ln, observed.get());
            let plain: Cost = Cost::from_ln(s.analytic_ln);
            let adjusted: Cost = Cost::from_ln(
                s.analytic_ln.plus(evaluate(ln, corrector.get())),
            );
            let plain_error: Real = plain.ln().minus(observed_ln).abs_value();
            let adjusted_error: Real = adjusted.ln().minus(observed_ln).abs_value();
            if adjusted_error.plus(Real::from_bits(ERROR_MARGIN_BITS)).lt(plain_error) {
                improved = improved + 1;
            }
            total = total + 1;
        }
    }
    assert(samples@.take(n as int) =~= samples@);
    if total == 0 {
        Real::from_bits(0)
    } else {
        Real::from_u64(improved).over(Real::from_u64(total))
    }
}

/// Whether a multiplier lies within the envelope.
pub fn delta_within_envelope(delta: Real) -> (r: bool)
    ensures
        r == (corrector_floor().at_most(delta) && delta.at_most(corrector_ceiling())),
{
    Real::from_bits(CORRECTOR_FLOOR_BITS).le(delta) && delta.le(
        Real::from_bits(CORRECTOR_CEILING_BITS),
    )
}

/// The ratio of a transfer, if it has a measurement and a usable prediction.
pub open spec fn transfer_sample_ratio<F: Fn(Real) -> Real>(s: RdmaCostShadowSample, exp: F) -> Option<
    Real,
> {
    let predicted = value_at(exp, s.analytic_transfer_ln);
    if s.observed_transfer_secs.at_most(zero()) || !s.analytic_transfer_ln.finite()
        || predicted.at_most(zero()) || !predicted.finite() {
        None
    } else {
        Some(held_ratio(s.observed_transfer_secs, predicted))
    }
}

/// The bit patterns of the ratios of all usable transfers, in order. A measurement that is not a
/// number gives a ratio that is none; by its pattern it comes behind all numbers.
pub open spec fn transfer_ratio_bits<F: Fn(Real) -> Real>(
    samples: Seq<RdmaCostShadowSample>,
    exp: F,
) -> Seq<u64>
    decreases samples.len(),
{
    if samples.len() == 0 {
        Seq::empty()
    } else {
        let before = transfer_ratio_bits(samples.drop_last(), exp);
        match transfer_sample_ratio(samples.last(), exp) {
            Some(r) => before.push(r.bits),
            None => before,
        }
    }
}

/// Median ratio of measured to predicted transfer time; `exp` is the exponential function.
pub fn eval_transfer_ratio_median<F: Fn(Real) -> Real + Copy>(
    samples: &[RdmaCostShadowSample],
    exp: F,
) -> (r: Real)
    requires
        is_function(exp),
    ensures
        r == median_ratio(transfer_ratio_bits(samples@, exp)),
{
    let n: usize = samples.len();
    let mut bits: Vec<u64> = Vec::new();
    for i in 0..n
        invariant
            is_function(exp),
            n == samples@.len(),
            bits@ == transfer_ratio_bits(samples@.take(i as int), exp),
    {
        assert(samples@.take(i + 1).drop_last() =~= samples@.take(i as int));
        assert(samples@.take(i + 1).last() == samples@[i as int]);
        let s = &samples[i];
        if !s.observed_transfer_secs.le(Real::from_bits(0)) && s.analytic_transfer_ln.is_finite() {
            let predicted: Real = evaluate(exp, s.analytic_transfer_ln);
            if !predicted.le(Real::from_bits(0)) && predicted.is_finite() {
                bits.push(ratio(s.observed_transfer_secs, predicted).to_bits());
            }
        }
    }
    assert(samples@.take(n as int) =~= samples@);
    median(bits)
}

} // verus!
