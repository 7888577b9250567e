//! Graduation of the learned corrector from shadow over canary to production.
//!
//! A window either holds, promotes by one stage, or rolls all the way back to the stage that does
//! not act.

use vstd::prelude::*;
use crate::binary64::Real;
use crate::elementary::is_function;
use crate::factors::{corrector_ceiling, corrector_floor, counts_add_up, ClampEvents};
use crate::params::{CORRECTOR_CEILING_BITS, CORRECTOR_FLOOR_BITS};
use crate::shadow::{
    eval_goodput_improvement, goodput, goodput_clamps, train_bounded_delta, trained_delta,
    training_clamps, CorrectorShadowSample,
};

verus! {

/// How far the corrector may act.
#[derive(Debug, Clone, Copy, PartialEq, Eq, Structural)]
pub enum GraduationStage {
    /// Nowhere.
    Shadow,
    /// On a bounded slice of traffic.
    Canary,
    /// Everywhere.
    Production,
}

/// What a window must show.
#[derive(Debug, Clone, Copy)]
pub struct GraduationGate {
    pub max_violations: u64,
    pub min_goodput_improvement: Real,
}

/// Whether a multiplier is at the edge of its envelope, or not a number.
pub open spec fn saturated(delta: Real) -> bool {
    !delta.finite() || delta.at_most(corrector_floor()) || corrector_ceiling().at_most(delta)
}

/// Whether a multiplier is at the edge of its envelope, or not a number.
pub fn is_clamp_saturated(delta: Real) -> (r: bool)
    ensures
        r == saturated(delta),
{
    !delta.is_finite() || delta.le(Real::from_bits(CORRECTOR_FLOOR_BITS)) || Real::from_bits(
        CORRECTOR_CEILING_BITS,
    ).le(delta)
}

/// Whether violations and improvement are within the limits.
pub open spec fn passes(violations: u64, improvement: Real, gate: GraduationGate) -> bool {
    violations <= gate.max_violations && gate.min_goodput_improvement.at_most(improvement)
}

/// Whether violations and improvement are within the limits.
pub fn eval_corrector_graduation(violations: u64, goodput_delta: Real, gate: &GraduationGate) -> (r:
    bool)
    ensures
        r == passes(violations, goodput_delta, *gate),
{
    violations <= gate.max_violations && gate.min_goodput_improvement.le(goodput_delta)
}

/// What a window led to.
#[derive(Debug, Clone, Copy, PartialEq, Eq, Structural)]
pub struct GraduationStep {
    pub stage: GraduationStage,
    pub rolled_back: bool,
}

/// The stage after a window: one up if it was healthy, else back to shadow.
pub open spec fn next_stage(stage: GraduationStage, healthy: bool) -> GraduationStage {
    if !healthy {
        GraduationStage::Shadow
    } else {
        match stage {
            GraduationStage::Shadow => GraduationStage::Canary,
            GraduationStage::Canary => GraduationStage::Production,
            GraduationStage::Production => GraduationStage::Production,
        }
    }
}

/// The outcome of a window.
pub open spec fn outcome(stage: GraduationStage, healthy: bool) -> GraduationStep {
    GraduationStep {
        stage: next_stage(stage, healthy),
        rolled_back: !healthy && stage != GraduationStage::Shadow,
    }
}

/// Whether a window with a trained multiplier is healthy.
pub open spec fn healthy(
    delta: Real,
    improvement: Real,
    violations: u64,
    gate: GraduationGate,
) -> bool {
    !saturated(delta) && passes(violations, improvement, gate)
}

/// The state machine.
#[derive(Debug, Clone, Copy)]
pub struct GraduationController {
    stage: GraduationStage,
}

impl Default for GraduationController {
    fn default() -> (r: GraduationController)
        ensures
            r.at() == GraduationStage::Shadow,
    {
        GraduationController::new()
    }
}

impl GraduationController {
    /// The stage in force.
    pub closed spec fn at(self) -> GraduationStage {
        self.stage
    }

    pub fn new() -> (r: GraduationController)
        ensures
            r.at() == GraduationStage::Shadow,
    {
        GraduationController { stage: GraduationStage::Shadow }
    }

    pub fn stage(self) -> (r: GraduationStage)
        ensures
            r == self.at(),
    {
        self.stage
    }

    /// Judges a window by its trained multiplier and the improvement it brings.
    pub fn judge(
        &mut self,
        delta: Real,
        improvement: Real,
        violations: u64,
        gate: &GraduationGate,
    ) -> (r: GraduationStep)
        ensures
            r == outcome(old(self).at(), healthy(delta, improvement, violations, *gate)),
            final(self).at() == r.stage,
    {
        let healthy: bool = !is_clamp_saturated(delta) && eval_corrector_graduation(
            violations,
            improvement,
            gate,
        );
        let next: GraduationStage = if !healthy {
            GraduationStage::Shadow
        } else {
            match self.stage {
                GraduationStage::Shadow => GraduationStage::Canary,
                GraduationStage::Canary => GraduationStage::Production,
                GraduationStage::Production => GraduationStage::Production,
            }
        };
        let rolled_back: bool = !healthy && self.stage != GraduationStage::Shadow;
        self.stage = next;
        GraduationStep { stage: next, rolled_back }
    }

    /// Trains on a window of samples and judges it. `violations` are those the caller saw; `ln` and
    /// `exp` are the logarithm and the exponential function.
    pub fn evaluate<F: Fn(Real) -> Real + Copy, G: Fn(Real) -> Real + Copy>(
        &mut self,
        samples: &[CorrectorShadowSample],
        violations: u64,
        gate: &GraduationGate,
        ln: F,
        exp: G,
        events: &mut ClampEvents,
    ) -> (r: GraduationStep)
        requires
            is_function(ln),
            is_function(exp),
        ensures
            ({
                let delta = trained_delta(samples@, exp);
                r == outcome(
                    old(self).at(),
                    healthy(delta, goodput(samples@, delta, ln), violations, *gate),
                )
            }),
            final(self).at() == r.stage,
            *final(events) == old(events).plus(
                training_clamps(samples@, exp) + goodput_clamps(
                    samples@,
                    trained_delta(samples@, exp),
                ),
            ),
    {
        let delta: Real = train_bounded_delta(samples, exp, events);
        let improvement: Real = eval_goodput_improvement(samples, delta, ln, events);
        proof {
            counts_add_up(
                *old(events),
                training_clamps(samples@, exp),
                goodput_clamps(samples@, delta),
            );
        }
        self.judge(delta, improvement, violations, gate)
    }
}

/// A multiplier at the edge of its envelope, or a failed gate, takes every stage back to shadow.
pub proof fn unhealthy_rolls_back(stage: GraduationStage)
    ensures
        outcome(stage, false).stage == GraduationStage::Shadow,
        outcome(stage, false).rolled_back == (stage != GraduationStage::Shadow),
{
}

/// Production is reached only by way of canary: two healthy windows in a row.
pub proof fn promotion_is_one_stage_at_a_time(stage: GraduationStage)
    ensures
        outcome(stage, true).stage == GraduationStage::Production ==> stage
            != GraduationStage::Shadow,
        outcome(outcome(GraduationStage::Shadow, true).stage, true).stage
            == GraduationStage::Production,
        !outcome(stage, true).rolled_back,
{
}

} // verus!
