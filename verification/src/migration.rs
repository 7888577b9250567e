//! Live migration of decode sessions: the copy loop and the cutover gate.

use vstd::prelude::*;
use vstd::arithmetic::power2::{
    lemma2_to64, lemma2_to64_rest, lemma_pow2_adds, lemma_pow2_pos, lemma_pow2_unfold, pow2,
};
use crate::binary64::{
    clamped, larger, lemma_count_below, lemma_nearest_bound, lemma_one_value, lemma_units_increase,
    lemma_value_order, of_nat, product, product_is_monotone, quotient, shift, significand,
    truncated, units, zero, Real, ONE_BITS,
};
use crate::kv::{saturating_mul_u64, saturating_product};
use crate::ledger::push_bounded;
use crate::params::MIGRATION_ITL_BUDGET_FRACTION_EPS_BITS;
use crate::rounding::HIDDEN_BIT;

verus! {

/// Largest share of copied bytes that counts as dirtied again (0.999999), as a bit pattern.
pub const MAX_DIRTY_FRACTION_BITS: u64 = 0x3fef_fffd_e721_0be9;

/// What a cutover check decides.
#[derive(Debug, Clone, Copy, PartialEq, Eq, Structural)]
pub enum MigrationDecision {
    Commit,
    Abort,
}

/// How long a cutover may stall a session.
#[derive(Debug, Clone, Copy)]
pub struct MigrationBudget {
    pub itl_us: u64,
    pub epsilon: Real,
}

/// The stall ceiling: a share of the inter-token latency, in whole microseconds.
pub open spec fn stall_limit(b: MigrationBudget) -> u64 {
    truncated(product(larger(b.epsilon, zero()), of_nat(b.itl_us as nat)))
}

impl MigrationBudget {
    /// The configured share of an inter-token latency.
    #[must_use]
    pub fn for_itl(itl_us: u64) -> (r: MigrationBudget)
        ensures
            r.itl_us == itl_us,
            r.epsilon.bits == MIGRATION_ITL_BUDGET_FRACTION_EPS_BITS,
    {
        MigrationBudget { itl_us, epsilon: Real::from_bits(MIGRATION_ITL_BUDGET_FRACTION_EPS_BITS) }
    }

    /// The stall ceiling in microseconds.
    #[must_use]
    pub fn limit_us(&self) -> (r: u64)
        ensures
            r == stall_limit(*self),
    {
        self.epsilon.max_with(Real::from_bits(0)).times(Real::from_u64(self.itl_us)).to_u64()
    }
}

/// Commits a cutover exactly when its estimated stall stays within the budget.
#[must_use]
pub fn evaluate_cutover(est_stall_us: u64, budget: &MigrationBudget) -> (r: MigrationDecision)
    ensures
        r == if est_stall_us <= stall_limit(*budget) {
            MigrationDecision::Commit
        } else {
            MigrationDecision::Abort
        },
{
    if est_stall_us <= budget.limit_us() {
        MigrationDecision::Commit
    } else {
        MigrationDecision::Abort
    }
}

/// Copying a session in background passes, each of which dirties some of what it copied.
#[derive(Debug, Clone, Copy)]
pub struct QuiesceModel {
    pub total_bytes: u64,
    pub chunk_bytes: u64,
    pub per_chunk_us: u64,
    /// Share of copied bytes dirtied again in each pass.
    pub dirty_fraction: Real,
}

/// How a copy loop ends.
#[derive(Debug, Clone, Copy, PartialEq, Eq, Structural)]
pub struct QuiesceOutcome {
    pub passes: u32,
    /// Time to copy what is left while the session is stopped.
    pub est_stall_us: u64,
    /// Bytes left.
    pub residual_bytes: u64,
}

/// Bytes still dirty after one more pass.
pub open spec fn redirtied(dirty: u64, fraction: Real) -> u64 {
    truncated(product(of_nat(dirty as nat), fraction))
}

/// The passes made and the bytes left when the loop stops: once the rest fits into one chunk, or
/// after the last pass allowed.
pub open spec fn copied_down(dirty: u64, passes: u32, chunk: u64, fraction: Real, max_passes: u32) -> (
    u32,
    u64,
)
    decreases max_passes - passes,
{
    if dirty > chunk && passes < max_passes {
        copied_down(redirtied(dirty, fraction), (passes + 1) as u32, chunk, fraction, max_passes)
    } else {
        (passes, dirty)
    }
}

/// Each pass leaves fewer bytes dirty than it found.
pub proof fn passes_shrink_the_rest(dirty: u64, fraction: Real)
    requires
        dirty > 0,
        fraction.is_nan() || fraction.negative() || fraction.at_most(
            Real { bits: MAX_DIRTY_FRACTION_BITS },
        ),
    ensures
        redirtied(dirty, fraction) < dirty,
{
    if !fraction.is_nan() && !fraction.negative() {
        let top = Real { bits: MAX_DIRTY_FRACTION_BITS };
        let k = pow2(1074);
        lemma2_to64();
        lemma2_to64_rest();
        lemma_pow2_pos(1074);
        lemma_count_below(dirty as nat, 64);
        let x = of_nat(dirty as nat);
        let m = x.magnitude();
        lemma_one_value();
        assert(dirty * k >= k) by (nonlinear_arith)
            requires
                dirty >= 1,
                k > 0,
        ;
        lemma_nearest_bound(dirty as nat * k, 1, ONE_BITS);
        // The double just below the count is below the count itself.
        let y = (m - 1) as u64;
        lemma_nearest_bound(dirty as nat * k, 1, y);
        assert(units(y) < dirty * k);
        // The largest share of the count is at most that double.
        let s = shift(m);
        let step = pow2(s);
        lemma_pow2_pos(s);
        lemma_pow2_unfold(s);
        assert(units(m) <= units(y) + step) by {
            if shift(y) == s {
                assert(significand(m) == significand(y) + 1);
                assert(units(m) == units(y) + step) by (nonlinear_arith)
                    requires
                        units(m) == significand(m) * step,
                        units(y) == significand(y) * step,
                        significand(m) == significand(y) + 1,
                ;
            } else {
                assert(significand(m) == HIDDEN_BIT);
                assert(shift(y) == s - 1);
                assert(significand(y) == 2 * HIDDEN_BIT - 1);
                assert(units(m) <= units(y) + step) by (nonlinear_arith)
                    requires
                        units(m) == HIDDEN_BIT * step,
                        units(y) == (2 * HIDDEN_BIT - 1) * pow2((s - 1) as nat),
                        step == 2 * pow2((s - 1) as nat),
                ;
            }
        }
        let share = units(MAX_DIRTY_FRACTION_BITS);
        lemma_pow2_adds(31, 1021);
        lemma_pow2_adds(53, 1021);
        lemma_pow2_adds(52, 1052);
        lemma_pow2_adds(30, 1074);
        assert(share + pow2(1052) <= k) by {
            assert(significand(MAX_DIRTY_FRACTION_BITS) == 0x1f_fffd_e721_0be9);
            assert(shift(MAX_DIRTY_FRACTION_BITS) == 1021);
            let j = pow2(1021);
            assert(0x1f_fffd_e721_0be9int * j + 0x8000_0000int * j <= 0x20_0000_0000_0000int * j)
                by (nonlinear_arith)
                requires
                    j >= 0,
            ;
        }
        let rest = pow2(1052);
        assert(units(m) >= 0x10_0000_0000_0000 * step) by (nonlinear_arith)
            requires
                units(m) == significand(m) * step,
                significand(m) >= 0x10_0000_0000_0000,
                step > 0,
        ;
        lemma_value_order(top, fraction);
        assert(units(m) * share <= units(y) * k) by (nonlinear_arith)
            requires
                share + rest <= k,
                units(m) >= 0x10_0000_0000_0000 * step,
                units(m) <= units(y) + step,
                0x10_0000_0000_0000 * rest >= k,
                step > 0,
                rest > 0,
                k > 0,
        ;
        lemma_nearest_bound(units(m) * share, k, y);
        product_is_monotone(x, x, fraction, top);
        let p = product(x, fraction);
        lemma_value_order(product(x, top), p);
        if p.magnitude() < y {
            lemma_units_increase(p.magnitude(), y);
        }
        assert(units(p.magnitude()) < dirty * k);
        assert(units(p.magnitude()) / k < dirty) by (nonlinear_arith)
            requires
                units(p.magnitude()) < dirty * k,
                k > 0,
        ;
    }
}

proof fn lemma_copied_down(
    dirty: u64,
    passes: u32,
    chunk: u64,
    fraction: Real,
    max_passes: u32,
)
    requires
        chunk > 0,
        fraction.is_nan() || fraction.negative() || fraction.at_most(
            Real { bits: MAX_DIRTY_FRACTION_BITS },
        ),
        passes <= max_passes,
        dirty - chunk <= max_passes - passes,
    ensures
        copied_down(dirty, passes, chunk, fraction, max_passes).1 <= chunk,
    decreases max_passes - passes,
{
    if dirty > chunk && passes < max_passes {
        passes_shrink_the_rest(dirty, fraction);
        lemma_copied_down(
            redirtied(dirty, fraction),
            (passes + 1) as u32,
            chunk,
            fraction,
            max_passes,
        );
    }
}

impl QuiesceModel {
    /// Bytes per chunk, at least one.
    pub open spec fn chunk_size(self) -> u64 {
        if self.chunk_bytes == 0 {
            1
        } else {
            self.chunk_bytes
        }
    }

    /// Time to copy bytes in whole chunks.
    pub open spec fn copy_time(self, bytes: u64) -> nat {
        saturating_product(
            ((bytes + self.chunk_size() - 1) / self.chunk_size() as int) as nat,
            self.per_chunk_us as nat,
        )
    }

    /// The share that counts as dirtied again, held below one.
    pub open spec fn held_fraction(self) -> Real {
        clamped(self.dirty_fraction, zero(), Real { bits: MAX_DIRTY_FRACTION_BITS })
    }

    fn chunk(&self) -> (r: u64)
        ensures
            r == self.chunk_size(),
            r > 0,
    {
        if self.chunk_bytes == 0 {
            1
        } else {
            self.chunk_bytes
        }
    }

    /// Time to copy bytes in whole chunks.
    pub fn copy_us(&self, bytes: u64) -> (r: u64)
        ensures
            r == self.copy_time(bytes),
    {
        let chunk: u64 = self.chunk();
        let wide: u128 = (bytes as u128 + chunk as u128 - 1) / chunk as u128;
        assert(wide <= u64::MAX) by (nonlinear_arith)
            requires
                wide as int == (bytes + chunk - 1) / chunk as int,
                chunk > 0,
                bytes <= u64::MAX,
        ;
        let chunks: u64 = wide as u64;
        saturating_mul_u64(chunks, self.per_chunk_us)
    }

    /// Runs background passes until the rest fits into one chunk or the passes are used up.
    #[must_use]
    pub fn quiesce(&self, max_passes: u32) -> (r: QuiesceOutcome)
        ensures
            ({
                let end = copied_down(
                    self.total_bytes,
                    0,
                    self.chunk_size(),
                    self.held_fraction(),
                    max_passes,
                );
                &&& r.passes == end.0
                &&& r.residual_bytes == end.1
                &&& r.est_stall_us == self.copy_time(end.1)
            }),
            r.passes <= max_passes,
            r.passes < max_passes ==> r.residual_bytes <= self.chunk_size(),
    {
        let chunk: u64 = self.chunk();
        let nil: Real = Real::from_bits(0);
        let top: Real = Real::from_bits(MAX_DIRTY_FRACTION_BITS);
        proof {
            lemma_value_order(top, nil);
        }
        let fraction: Real = self.dirty_fraction.clamp_to(nil, top);
        let mut dirty: u64 = self.total_bytes;
        let mut passes: u32 = 0;
        while dirty > chunk && passes < max_passes
            invariant
                passes <= max_passes,
                copied_down(self.total_bytes, 0, chunk, fraction, max_passes) == copied_down(
                    dirty,
                    passes,
                    chunk,
                    fraction,
                    max_passes,
                ),
            decreases max_passes - passes,
        {
            dirty = Real::from_u64(dirty).times(fraction).to_u64();
            passes = passes + 1;
        }
        QuiesceOutcome { passes, est_stall_us: self.copy_us(dirty), residual_bytes: dirty }
    }
}

/// With enough passes what is left always fits into one chunk.
pub proof fn copying_converges(model: QuiesceModel, max_passes: u32)
    requires
        model.total_bytes <= max_passes + model.chunk_size(),
    ensures
        copied_down(
            model.total_bytes,
            0,
            model.chunk_size(),
            model.held_fraction(),
            max_passes,
        ).1 <= model.chunk_size(),
{
    let top = Real { bits: MAX_DIRTY_FRACTION_BITS };
    lemma_value_order(top, zero());
    if !model.dirty_fraction.is_nan() {
        lemma_value_order(top, model.dirty_fraction);
        lemma_value_order(model.dirty_fraction, zero());
    }
    lemma_copied_down(
        model.total_bytes,
        0,
        model.chunk_size(),
        model.held_fraction(),
        max_passes,
    );
}

/// One migration: estimated and measured stall, and what was decided.
#[derive(Debug, Clone, Copy, PartialEq, Eq, Structural)]
pub struct MigrationStallSample {
    pub estimated_us: u64,
    pub measured_us: u64,
    pub decision: MigrationDecision,
}

/// Recent migrations.
#[derive(Debug)]
pub struct MigrationStallLog {
    inner: Vec<MigrationStallSample>,
    max_samples: usize,
}

/// Distance between estimate and measurement.
pub open spec fn stall_error(s: MigrationStallSample) -> nat {
    if s.estimated_us >= s.measured_us {
        (s.estimated_us - s.measured_us) as nat
    } else {
        (s.measured_us - s.estimated_us) as nat
    }
}

/// Sum of the distances.
pub open spec fn error_sum(samples: Seq<MigrationStallSample>) -> nat
    decreases samples.len(),
{
    if samples.len() == 0 {
        0
    } else {
        error_sum(samples.drop_last()) + stall_error(samples.last())
    }
}

proof fn lemma_error_sum_grows(samples: Seq<MigrationStallSample>, n: int)
    requires
        0 <= n <= samples.len(),
    ensures
        error_sum(samples.take(n)) <= error_sum(samples),
    decreases samples.len(),
{
    if n == samples.len() {
        assert(samples.take(n) =~= samples);
    } else {
        lemma_error_sum_grows(samples.drop_last(), n);
        assert(samples.drop_last().take(n) =~= samples.take(n));
    }
}

impl View for MigrationStallLog {
    type V = Seq<MigrationStallSample>;

    closed spec fn view(&self) -> Seq<MigrationStallSample> {
        self.inner@
    }
}

impl MigrationStallLog {
    /// How many samples are kept.
    pub closed spec fn limit(self) -> nat {
        self.max_samples as nat
    }

    /// An empty log that keeps at least one sample.
    #[must_use]
    pub fn new(max_samples: usize) -> (r: MigrationStallLog)
        ensures
            r@ == Seq::<MigrationStallSample>::empty(),
            r.limit() == if max_samples == 0 {
                1
            } else {
                max_samples as nat
            },
    {
        MigrationStallLog {
            inner: Vec::new(),
            max_samples: if max_samples == 0 {
                1
            } else {
                max_samples
            },
        }
    }

    /// Adds a sample; the oldest makes room.
    pub fn record(&mut self, sample: MigrationStallSample)
        requires
            old(self).limit() > 0,
        ensures
            final(self)@ == push_bounded(old(self)@, old(self).limit(), sample),
            final(self).limit() == old(self).limit(),
    {
        let ghost before = self.inner@;
        if self.inner.len() >= self.max_samples {
            self.inner.remove(0);
            assert(self.inner@ =~= before.drop_first());
        }
        self.inner.push(sample);
    }

    /// The samples, oldest first.
    #[must_use]
    pub fn samples(&self) -> (r: Vec<MigrationStallSample>)
        ensures
            r@ == self@,
    {
        let mut out: Vec<MigrationStallSample> = Vec::new();
        let n: usize = self.inner.len();
        for i in 0..n
            invariant
                n == self.inner@.len(),
                out@ =~= self.inner@.take(i as int),
        {
            out.push(self.inner[i]);
        }
        assert(out@ =~= self.inner@);
        out
    }

    #[must_use]
    pub fn len(&self) -> (r: usize)
        ensures
            r == self@.len(),
    {
        self.inner.len()
    }

    #[must_use]
    pub fn is_empty(&self) -> (r: bool)
        ensures
            r == (self@.len() == 0),
    {
        self.inner.len() == 0
    }

    /// Mean distance between estimate and measurement; zero without samples.
    #[must_use]
    pub fn mean_abs_error_us(&self) -> (r: Real)
        requires
            error_sum(self@) <= u64::MAX,
        ensures
            r == if self@.len() == 0 {
                zero()
            } else {
                quotient(of_nat(error_sum(self@)), of_nat(self@.len()))
            },
    {
        let n: usize = self.inner.len();
        if n == 0 {
            return Real::from_bits(0);
        }
        let mut total: u64 = 0;
        for i in 0..n
            invariant
                n == self.inner@.len(),
                error_sum(self.inner@) <= u64::MAX,
                total == error_sum(self.inner@.take(i as int)),
        {
            proof {
                assert(self.inner@.take(i + 1).drop_last() =~= self.inner@.take(i as int));
                lemma_error_sum_grows(self.inner@, i + 1);
            }
            let s: MigrationStallSample = self.inner[i];
            let error: u64 = if s.estimated_us >= s.measured_us {
                s.estimated_us - s.measured_us
            } else {
                s.measured_us - s.estimated_us
            };
            total = total + error;
        }
        assert(self.inner@.take(n as int) =~= self.inner@);
        Real::from_u64(total).over(Real::from_u64(n as u64))
    }
}

} // verus!
