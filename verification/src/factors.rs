//! Cost factors and their composition in log space.
//!
//! A cost is kept as its natural logarithm, so it stands for a strictly positive number whatever
//! the factors are. A broken signal can only make a target look more expensive: each `clamped`
//! constructor maps what it cannot use to its least attractive value.

use vstd::prelude::*;
use vstd::arithmetic::power2::{
    lemma2_to64, lemma2_to64_rest, lemma_pow2_adds, lemma_pow2_pos, lemma_pow2_unfold, pow2,
};
use crate::binary64::{
    adding_never_lowers, clamped, difference, difference_is_monotone, lemma_nearest_bound,
    lemma_nearest_of_units, lemma_nearest_range, lemma_nearest_within, lemma_one_value,
    lemma_sum_error, lemma_sum_value, lemma_units_increase, lemma_units_of_power,
    lemma_value_order, negation, of_nat, one, product, product_is_monotone, quotient, signed, sum,
    sum_is_monotone, units, zero, Real, MAX_BITS, ONE_BITS,
};
use crate::elementary::{evaluate, is_function, value_at};
use crate::kv::fleet_marginal_bytes;
use crate::params::{
    CORRECTOR_CEILING_BITS, CORRECTOR_FLOOR_BITS, PHI_MAX_UTILISATION_BITS,
    WARMTH_MAX_DISCOUNT_BITS,
};
use crate::rounding::{lemma_nearest_monotone, nearest, HIDDEN_BIT, INFINITY_BITS};

verus! {

/// Why a factor was refused.
#[derive(Debug, Clone, Copy, PartialEq, Eq, Structural)]
pub enum FactorError {
    NotFinite,
    OutOfRange,
}

impl FactorError {
    /// The message shown to operators.
    pub fn message(&self) -> (r: &'static str)
        ensures
            r@ == match *self {
                FactorError::NotFinite => "factor must be finite"@,
                FactorError::OutOfRange => "factor outside its permitted range"@,
            },
    {
        match self {
            FactorError::NotFinite => "factor must be finite",
            FactorError::OutOfRange => "factor outside its permitted range",
        }
    }
}

/// The largest finite double.
pub open spec fn most_expensive() -> Real {
    Real { bits: MAX_BITS }
}

/// A usable time core: finite and above zero.
pub open spec fn is_core(x: Real) -> bool {
    x.finite() && zero().below(x)
}

/// A usable penalty: finite and at least one.
pub open spec fn is_penalty(x: Real) -> bool {
    x.finite() && one().at_most(x)
}

/// A usable reward: above zero and at most one.
pub open spec fn is_reward(x: Real) -> bool {
    x.finite() && zero().below(x) && x.at_most(one())
}

/// Lowest corrector multiplier.
pub open spec fn corrector_floor() -> Real {
    Real { bits: CORRECTOR_FLOOR_BITS }
}

/// Highest corrector multiplier.
pub open spec fn corrector_ceiling() -> Real {
    Real { bits: CORRECTOR_CEILING_BITS }
}

/// What a raw corrector value becomes: one if it is not a number, else the nearest allowed value.
pub open spec fn corrected(delta: Real) -> Real {
    if !delta.finite() {
        one()
    } else {
        clamped(delta, corrector_floor(), corrector_ceiling())
    }
}

/// A count held in 64 bits, starting over at zero.
pub open spec fn wrapped(n: nat) -> u64 {
    (n % 0x1_0000_0000_0000_0000) as u64
}

/// A running count of signals that could not be used. One that climbs means that signals arrive
/// broken.
#[derive(Debug, Clone, Copy, PartialEq, Eq, Structural)]
pub struct ClampEvents {
    pub count: u64,
}

impl ClampEvents {
    /// The count after so many more.
    #[verifier::opaque]
    pub open spec fn plus(self, n: nat) -> ClampEvents {
        ClampEvents { count: wrapped(self.count as nat + n) }
    }

    /// None so far.
    pub fn new() -> (r: ClampEvents)
        ensures
            r.count == 0,
    {
        ClampEvents { count: 0 }
    }

    /// Counts so many.
    pub fn add_count(&mut self, n: u64)
        ensures
            *final(self) == old(self).plus(n as nat),
    {
        proof {
            reveal(ClampEvents::plus);
        }
        self.count = self.count.wrapping_add(n);
    }

    /// Counts one.
    pub fn bump(&mut self)
        ensures
            *final(self) == old(self).plus(1),
    {
        proof {
            reveal(ClampEvents::plus);
        }
        self.count = self.count.wrapping_add(1);
    }
}

/// Counting twice is counting both at once.
pub proof fn counts_add_up(e: ClampEvents, a: nat, b: nat)
    ensures
        e.plus(a).plus(b) == e.plus(a + b),
        e.plus(0) == e,
{
    reveal(ClampEvents::plus);
}

/// A count that stays within 64 bits is the sum.
pub proof fn count_is_exact(e: ClampEvents, n: nat)
    requires
        e.count + n <= u64::MAX,
    ensures
        e.plus(n).count == e.count + n,
{
    reveal(ClampEvents::plus);
}

/// One if a time cannot be used, else none.
pub open spec fn unusable_time(seconds: Real) -> nat {
    if is_core(seconds) {
        0
    } else {
        1
    }
}

/// One if a penalty cannot be used, else none.
pub open spec fn unusable_penalty(x: Real) -> nat {
    if is_penalty(x) {
        0
    } else {
        1
    }
}

/// One if a reward cannot be used, else none.
pub open spec fn unusable_reward(x: Real) -> nat {
    if is_reward(x) {
        0
    } else {
        1
    }
}

/// One if a raw corrector value has to be held, else none.
pub open spec fn outside_envelope(delta: Real) -> nat {
    if delta.finite() && corrector_floor().at_most(delta) && delta.at_most(corrector_ceiling()) {
        0
    } else {
        1
    }
}

/// Strictly positive analytic time (seconds), the dimension of a cost.
#[derive(Debug, Clone, Copy)]
pub struct TimeCore {
    seconds: Real,
}

impl TimeCore {
    #[verifier::type_invariant]
    spec fn inv(self) -> bool {
        is_core(self.seconds)
    }

    /// The time in seconds.
    pub closed spec fn seconds(self) -> Real {
        self.seconds
    }

    /// Accepts finite, strictly positive seconds.
    pub fn new(seconds: Real) -> (r: Result<TimeCore, FactorError>)
        ensures
            match r {
                Ok(c) => is_core(seconds) && c.seconds() == seconds,
                Err(FactorError::NotFinite) => !seconds.finite(),
                Err(FactorError::OutOfRange) => seconds.finite() && seconds.at_most(zero()),
            },
    {
        if !seconds.is_finite() {
            return Err(FactorError::NotFinite);
        }
        if seconds.le(Real::from_bits(0)) {
            return Err(FactorError::OutOfRange);
        }
        Ok(TimeCore { seconds })
    }

    /// Takes any value; one that is no usable time becomes the longest, and is counted.
    pub fn clamped(seconds: Real, events: &mut ClampEvents) -> (r: TimeCore)
        ensures
            *final(events) == old(events).plus(unusable_time(seconds)),
            r.seconds() == if is_core(seconds) {
                seconds
            } else {
                most_expensive()
            },
    {
        if seconds.is_finite() && Real::from_bits(0).lt(seconds) {
            proof {
                counts_add_up(*old(events), 0, 0);
            }
            TimeCore { seconds }
        } else {
            proof {
                lemma_extremes();
            }
            events.bump();
            TimeCore { seconds: Real::from_bits(MAX_BITS) }
        }
    }

    /// The time in seconds.
    pub fn get(self) -> (r: Real)
        ensures
            r == self.seconds(),
            is_core(r),
    {
        proof {
            use_type_invariant(&self);
        }
        self.seconds
    }
}

/// Penalty of at least one, such as memory pressure.
#[derive(Debug, Clone, Copy)]
pub struct BarrierFactor {
    x: Real,
}

impl BarrierFactor {
    #[verifier::type_invariant]
    spec fn inv(self) -> bool {
        is_penalty(self.x)
    }

    /// The penalty.
    pub closed spec fn factor(self) -> Real {
        self.x
    }

    /// Accepts finite values of at least one.
    pub fn new(x: Real) -> (r: Result<BarrierFactor, FactorError>)
        ensures
            match r {
                Ok(b) => is_penalty(x) && b.factor() == x,
                Err(FactorError::NotFinite) => !x.finite(),
                Err(FactorError::OutOfRange) => x.finite() && x.below(one()),
            },
    {
        if !x.is_finite() {
            return Err(FactorError::NotFinite);
        }
        if x.lt(Real::from_bits(ONE_BITS)) {
            return Err(FactorError::OutOfRange);
        }
        Ok(BarrierFactor { x })
    }

    /// Takes any value; one that is no usable penalty becomes the highest, and is counted.
    pub fn clamped(x: Real, events: &mut ClampEvents) -> (r: BarrierFactor)
        ensures
            *final(events) == old(events).plus(unusable_penalty(x)),
            r.factor() == penalty_or_highest(x),
    {
        if x.is_finite() && Real::from_bits(ONE_BITS).le(x) {
            proof {
                counts_add_up(*old(events), 0, 0);
            }
            BarrierFactor { x }
        } else {
            proof {
                lemma_extremes();
            }
            events.bump();
            BarrierFactor { x: Real::from_bits(MAX_BITS) }
        }
    }

    /// The penalty.
    pub fn get(self) -> (r: Real)
        ensures
            r == self.factor(),
            is_penalty(r),
    {
        proof {
            use_type_invariant(&self);
        }
        self.x
    }
}

/// The penalty itself, or the highest one in place of an unusable value.
pub open spec fn penalty_or_highest(x: Real) -> Real {
    if is_penalty(x) {
        x
    } else {
        most_expensive()
    }
}

/// Reward of at most one, such as cache locality.
#[derive(Debug, Clone, Copy)]
pub struct Discount {
    x: Real,
}

impl Discount {
    #[verifier::type_invariant]
    spec fn inv(self) -> bool {
        is_reward(self.x)
    }

    /// The reward.
    pub closed spec fn factor(self) -> Real {
        self.x
    }

    /// Accepts values above zero and at most one.
    pub fn new(x: Real) -> (r: Result<Discount, FactorError>)
        ensures
            match r {
                Ok(d) => is_reward(x) && d.factor() == x,
                Err(FactorError::NotFinite) => !x.finite(),
                Err(FactorError::OutOfRange) => x.finite() && (x.at_most(zero()) || one().below(x)),
            },
    {
        if !x.is_finite() {
            return Err(FactorError::NotFinite);
        }
        if x.le(Real::from_bits(0)) || Real::from_bits(ONE_BITS).lt(x) {
            return Err(FactorError::OutOfRange);
        }
        Ok(Discount { x })
    }

    /// Takes any value; one that is no usable reward becomes no reward, and is counted.
    pub fn clamped(x: Real, events: &mut ClampEvents) -> (r: Discount)
        ensures
            *final(events) == old(events).plus(unusable_reward(x)),
            r.factor() == if is_reward(x) {
                x
            } else {
                one()
            },
    {
        if x.is_finite() && Real::from_bits(0).lt(x) && x.le(Real::from_bits(ONE_BITS)) {
            proof {
                counts_add_up(*old(events), 0, 0);
            }
            Discount { x }
        } else {
            proof {
                lemma_extremes();
            }
            events.bump();
            Discount { x: Real::from_bits(ONE_BITS) }
        }
    }

    /// The reward.
    pub fn get(self) -> (r: Real)
        ensures
            r == self.factor(),
            is_reward(r),
    {
        proof {
            use_type_invariant(&self);
        }
        self.x
    }
}

/// Learned multiplier, held to its envelope around one.
#[derive(Debug, Clone, Copy)]
pub struct Corrector {
    delta: Real,
}

impl Corrector {
    #[verifier::type_invariant]
    spec fn inv(self) -> bool {
        corrector_floor().at_most(self.delta) && self.delta.at_most(corrector_ceiling())
    }

    /// The multiplier.
    pub closed spec fn delta(self) -> Real {
        self.delta
    }

    /// Takes any value and holds it to the envelope; one outside is counted.
    pub fn new(delta: Real, events: &mut ClampEvents) -> (r: Corrector)
        ensures
            r.delta() == corrected(delta),
            *final(events) == old(events).plus(outside_envelope(delta)),
    {
        let lo: Real = Real::from_bits(CORRECTOR_FLOOR_BITS);
        let hi: Real = Real::from_bits(CORRECTOR_CEILING_BITS);
        proof {
            lemma_extremes();
        }
        if !delta.is_finite() {
            events.bump();
            Corrector { delta: Real::from_bits(ONE_BITS) }
        } else {
            proof {
                counts_add_up(*old(events), 0, 0);
            }
            if delta.lt(lo) || hi.lt(delta) {
                events.bump();
            }
            Corrector { delta: delta.clamp_to(lo, hi) }
        }
    }

    /// The multiplier that changes nothing.
    pub fn identity() -> (r: Corrector)
        ensures
            r.delta() == one(),
    {
        proof {
            lemma_extremes();
        }
        Corrector { delta: Real::from_bits(ONE_BITS) }
    }

    /// The multiplier.
    pub fn get(self) -> (r: Real)
        ensures
            r == self.delta(),
            corrector_floor().at_most(r),
            r.at_most(corrector_ceiling()),
    {
        proof {
            use_type_invariant(&self);
        }
        self.delta
    }
}

/// Where the limits of the factors lie.
pub proof fn lemma_extremes()
    ensures
        is_core(most_expensive()),
        is_penalty(most_expensive()),
        is_reward(one()),
        corrector_floor().at_most(one()),
        one().at_most(corrector_ceiling()),
        corrector_floor().at_most(corrector_ceiling()),
        zero().below(corrector_floor()),
{
    lemma_value_order(zero(), most_expensive());
    lemma_value_order(most_expensive(), one());
    lemma_value_order(zero(), one());
    lemma_value_order(one(), corrector_floor());
    lemma_value_order(corrector_ceiling(), one());
    lemma_value_order(corrector_ceiling(), corrector_floor());
    lemma_value_order(zero(), corrector_floor());
}

/// The corrector stays within its envelope and above zero, whatever it was fed.
pub proof fn corrector_is_bounded(delta: Real)
    ensures
        corrector_floor().at_most(corrected(delta)),
        corrected(delta).at_most(corrector_ceiling()),
        zero().below(corrected(delta)),
{
    lemma_extremes();
}

/// An unusable signal never counts as cheaper than a usable one.
pub proof fn unusable_is_never_cheaper(usable: Real)
    ensures
        is_core(usable) ==> usable.at_most(most_expensive()),
        is_penalty(usable) ==> usable.at_most(most_expensive()),
        is_reward(usable) ==> usable.at_most(one()),
{
    if usable.finite() {
        lemma_value_order(most_expensive(), usable);
    }
}

/// A strictly positive cost, held as its natural logarithm.
#[derive(Debug, Clone, Copy)]
pub struct Cost {
    ln: Real,
}

/// The logarithm itself, or the highest one in place of a value that is not finite.
pub open spec fn finite_or_highest(ln: Real) -> Real {
    if ln.finite() {
        ln
    } else {
        most_expensive()
    }
}

impl Cost {
    #[verifier::type_invariant]
    spec fn inv(self) -> bool {
        self.ln.finite()
    }

    /// The natural logarithm of the cost.
    pub closed spec fn log(self) -> Real {
        self.ln
    }

    /// The natural logarithm of the cost: always finite.
    pub fn ln(self) -> (r: Real)
        ensures
            r == self.log(),
            r.finite(),
    {
        proof {
            use_type_invariant(&self);
        }
        self.ln
    }

    /// The cost itself, for display; `exp` is the exponential function. At the extremes it may be
    /// zero or infinite, so costs are compared by their logarithms.
    pub fn get<G: Fn(Real) -> Real>(self, exp: G) -> (r: Real)
        requires
            is_function(exp),
        ensures
            r == value_at(exp, self.log()),
    {
        evaluate(exp, self.ln)
    }

    /// A finite logarithm stands for a strictly positive cost, so this always holds.
    pub fn is_positive(self) -> (r: bool)
        ensures
            r,
            r == self.log().finite(),
    {
        proof {
            use_type_invariant(&self);
        }
        self.ln.is_finite()
    }

    /// The cost with this logarithm; one that is not finite counts as the most expensive.
    pub fn from_ln(ln: Real) -> (r: Cost)
        ensures
            r.log() == finite_or_highest(ln),
    {
        if ln.is_finite() {
            Cost { ln }
        } else {
            Cost { ln: Real::from_bits(MAX_BITS) }
        }
    }
}

/// The logarithms of the factors of one cost.
pub struct FactorLogs {
    pub core: Real,
    pub barriers: Seq<Real>,
    pub discounts: Seq<Real>,
    pub corrector: Option<Real>,
}

/// `start` plus each of `terms`, from left to right.
pub open spec fn add_all(start: Real, terms: Seq<Real>) -> Real
    decreases terms.len(),
{
    if terms.len() == 0 {
        start
    } else {
        sum(add_all(start, terms.drop_last()), terms.last())
    }
}

/// The logarithm of the product of all factors.
pub open spec fn total_log(logs: FactorLogs) -> Real {
    let before = add_all(add_all(logs.core, logs.barriers), logs.discounts);
    match logs.corrector {
        Some(c) => sum(before, c),
        None => before,
    }
}

fn add_terms(start: Real, terms: &[Real]) -> (r: Real)
    ensures
        r == add_all(start, terms@),
{
    let mut total: Real = start;
    let n: usize = terms.len();
    for i in 0..n
        invariant
            n == terms@.len(),
            total == add_all(start, terms@.take(i as int)),
    {
        assert(terms@.take(i + 1).drop_last() =~= terms@.take(i as int));
        total = total.plus(terms[i]);
    }
    assert(terms@.take(n as int) =~= terms@);
    total
}

/// The cost whose factors have these logarithms.
pub fn sum_logs(
    core: Real,
    barriers: &[Real],
    discounts: &[Real],
    corrector: Option<Real>,
) -> (cost: Cost)
    ensures
        cost.log() == finite_or_highest(
            total_log(
                FactorLogs { core, barriers: barriers@, discounts: discounts@, corrector },
            ),
        ),
{
    let with_barriers: Real = add_terms(core, barriers);
    let with_discounts: Real = add_terms(with_barriers, discounts);
    match corrector {
        Some(c) => Cost::from_ln(with_discounts.plus(c)),
        None => Cost::from_ln(with_discounts),
    }
}

/// The logarithms of some factors; a corrector of exactly one has none.
pub open spec fn factor_logs<F: Fn(Real) -> Real>(
    ln: F,
    core: Real,
    barriers: Seq<Real>,
    discounts: Seq<Real>,
    corrector: Real,
) -> FactorLogs {
    FactorLogs {
        core: value_at(ln, core),
        barriers: barriers.map_values(|x: Real| value_at(ln, x)),
        discounts: discounts.map_values(|x: Real| value_at(ln, x)),
        corrector: if corrector == one() {
            None
        } else {
            Some(value_at(ln, corrector))
        },
    }
}

/// The penalties of a list of barriers.
pub open spec fn penalties(barriers: Seq<BarrierFactor>) -> Seq<Real> {
    barriers.map_values(|b: BarrierFactor| b.factor())
}

/// The rewards of a list of discounts.
pub open spec fn rewards(discounts: Seq<Discount>) -> Seq<Real> {
    discounts.map_values(|d: Discount| d.factor())
}

/// The cost of a target: the product of all its factors, added up in log space. `ln` is the
/// natural logarithm.
pub fn compose<F: Fn(Real) -> Real + Copy>(
    core: TimeCore,
    barriers: &[BarrierFactor],
    discounts: &[Discount],
    corrector: Corrector,
    ln: F,
) -> (cost: Cost)
    requires
        is_function(ln),
    ensures
        cost.log() == finite_or_highest(
            total_log(
                factor_logs(
                    ln,
                    core.seconds(),
                    penalties(barriers@),
                    rewards(discounts@),
                    corrector.delta(),
                ),
            ),
        ),
{
    let ghost logs = factor_logs(
        ln,
        core.seconds(),
        penalties(barriers@),
        rewards(discounts@),
        corrector.delta(),
    );
    let core_ln: Real = evaluate(ln, core.get());
    let mut barrier_lns: Vec<Real> = Vec::new();
    for i in 0..barriers.len()
        invariant
            is_function(ln),
            barrier_lns@.len() == i,
            forall|j: int|
                0 <= j < i ==> #[trigger] barrier_lns@[j] == value_at(ln, barriers@[j].factor()),
    {
        barrier_lns.push(evaluate(ln, barriers[i].get()));
    }
    assert(barrier_lns@ =~= logs.barriers);
    let mut discount_lns: Vec<Real> = Vec::new();
    for i in 0..discounts.len()
        invariant
            is_function(ln),
            discount_lns@.len() == i,
            forall|j: int|
                0 <= j < i ==> #[trigger] discount_lns@[j] == value_at(ln, discounts@[j].factor()),
    {
        discount_lns.push(evaluate(ln, discounts[i].get()));
    }
    assert(discount_lns@ =~= logs.discounts);
    let delta: Real = corrector.get();
    let corrector_ln: Option<Real> = if delta.to_bits() == ONE_BITS {
        None
    } else {
        Some(evaluate(ln, delta))
    };
    sum_logs(core_ln, barrier_lns.as_slice(), discount_lns.as_slice(), corrector_ln)
}

/// A logarithm of a finite positive double lies between -1024 and 1024.
pub open spec fn is_log_sized(x: Real) -> bool {
    x.finite() && -pow2(1084) <= x.value() <= pow2(1084)
}

proof fn lemma_sum_within(a: Real, b: Real, c: nat)
    requires
        c + 1 < 2 * HIDDEN_BIT,
        a.finite(),
        -(c * pow2(1084)) <= a.value() <= c * pow2(1084),
        is_log_sized(b),
    ensures
        sum(a, b).finite(),
        -((c + 1) * pow2(1084)) <= sum(a, b).value() <= (c + 1) * pow2(1084),
{
    let k = pow2(1084);
    lemma_pow2_pos(1084);
    assert((c + 1) * k == c * k + k) by (nonlinear_arith);
    assert(0 <= (c + 1) * k) by (nonlinear_arith)
        requires
            k > 0,
            c >= 0,
    ;
    let v = a.value() + b.value();
    assert(units(0) == 0) by (nonlinear_arith);
    if v > 0 {
        lemma_nearest_within(v as nat, c + 1, 1084);
    } else if v < 0 {
        lemma_nearest_within((-v) as nat, c + 1, 1084);
    }
}

/// A running sum of logarithms stays within the sum of their bounds.
pub proof fn lemma_add_all_within(start: Real, terms: Seq<Real>, c: nat)
    requires
        c + terms.len() < 2 * HIDDEN_BIT,
        start.finite(),
        -(c * pow2(1084)) <= start.value() <= c * pow2(1084),
        forall|i: int| 0 <= i < terms.len() ==> is_log_sized(#[trigger] terms[i]),
    ensures
        add_all(start, terms).finite(),
        -((c + terms.len()) * pow2(1084)) <= add_all(start, terms).value() <= (c + terms.len())
            * pow2(1084),
    decreases terms.len(),
{
    if terms.len() > 0 {
        assert forall|i: int| 0 <= i < terms.len() - 1 implies is_log_sized(
            #[trigger] terms.drop_last()[i],
        ) by {
            assert(is_log_sized(terms[i]));
        }
        lemma_add_all_within(start, terms.drop_last(), c);
        assert(is_log_sized(terms.last()));
        lemma_sum_within(
            add_all(start, terms.drop_last()),
            terms.last(),
            (c + terms.len() - 1) as nat,
        );
    }
}

/// Composing never overflows: with logarithms of finite factors, fewer than `2^52` of them, the
/// log-cost is finite and is exactly their sum, so no tiny reward or huge penalty can turn a cost
/// into zero or infinity.
pub proof fn composed_cost_is_exact(logs: FactorLogs)
    requires
        is_log_sized(logs.core),
        forall|i: int| 0 <= i < logs.barriers.len() ==> is_log_sized(#[trigger] logs.barriers[i]),
        forall|i: int|
            0 <= i < logs.discounts.len() ==> is_log_sized(#[trigger] logs.discounts[i]),
        logs.corrector matches Some(c) ==> is_log_sized(c),
        logs.barriers.len() + logs.discounts.len() < HIDDEN_BIT,
    ensures
        total_log(logs).finite(),
        finite_or_highest(total_log(logs)) == total_log(logs),
{
    let b = logs.barriers.len();
    let d = logs.discounts.len();
    assert(1 * pow2(1084) == pow2(1084));
    lemma_add_all_within(logs.core, logs.barriers, 1);
    lemma_add_all_within(add_all(logs.core, logs.barriers), logs.discounts, 1 + b);
    if let Some(c) = logs.corrector {
        lemma_sum_within(
            add_all(add_all(logs.core, logs.barriers), logs.discounts),
            c,
            1 + b + d,
        );
    }
}

/// The cost factor left after a warmth hit of the given strength.
pub open spec fn warmth_factor(strength: Real) -> Real {
    difference(
        one(),
        product(clamped(strength, zero(), one()), Real { bits: WARMTH_MAX_DISCOUNT_BITS }),
    )
}

/// Turns a warmth strength into a reward; a miss earns none.
pub fn warmth_discount(strength: Real) -> (r: Option<Discount>)
    ensures
        r is Some <==> strength.finite() && zero().below(strength),
        r matches Some(d) ==> d.factor() == warmth_factor(strength),
{
    let nil: Real = Real::from_bits(0);
    let full: Real = Real::from_bits(ONE_BITS);
    if !strength.is_finite() || strength.le(nil) {
        return None;
    }
    proof {
        lemma_extremes();
        warmth_factor_is_bounded(strength);
    }
    let held: Real = strength.clamp_to(nil, full);
    let factor: Real = full.minus(held.times(Real::from_bits(WARMTH_MAX_DISCOUNT_BITS)));
    Some(Discount::new(factor).unwrap())
}

/// A warmth hit takes off at most the configured share: the factor lies between one half and one.
pub proof fn warmth_factor_is_bounded(strength: Real)
    requires
        strength.finite(),
        zero().below(strength),
    ensures
        is_reward(warmth_factor(strength)),
        (Real { bits: WARMTH_MAX_DISCOUNT_BITS }).at_most(warmth_factor(strength)),
{
    let half = Real { bits: WARMTH_MAX_DISCOUNT_BITS };
    let held = clamped(strength, zero(), one());
    lemma_value_order(zero(), strength);
    lemma_value_order(one(), strength);
    assert(!held.negative() && held.magnitude() <= ONE_BITS);
    lemma_one_value();
    lemma_units_of_power(1073);
    lemma_pow2_unfold(1074);
    lemma_pow2_pos(1073);
    // Half of the strength is at most one half.
    let h = units(held.magnitude());
    if held.magnitude() < ONE_BITS {
        lemma_units_increase(held.magnitude(), ONE_BITS);
    }
    assert(h * pow2(1073) <= pow2(1073) * pow2(1074)) by (nonlinear_arith)
        requires
            h <= pow2(1074),
            pow2(1073) > 0,
    ;
    let m = nearest(h * pow2(1073), pow2(1074));
    lemma_nearest_bound(h * pow2(1073), pow2(1074), WARMTH_MAX_DISCOUNT_BITS);
    let p = product(held, half);
    assert(p == signed(false, m));
    if m < WARMTH_MAX_DISCOUNT_BITS {
        lemma_units_increase(m, WARMTH_MAX_DISCOUNT_BITS);
    }
    // What is left lies between one half and one.
    let v = (pow2(1074) - units(m)) as nat;
    assert(negation(p).value() == -units(m)) by {
        assert(units(0) == 0) by (nonlinear_arith);
    }
    lemma_nearest_bound(v, 1, WARMTH_MAX_DISCOUNT_BITS);
    lemma_nearest_bound(v, 1, ONE_BITS);
    let w = warmth_factor(strength);
    assert(w == signed(false, nearest(v, 1)));
    lemma_value_order(one(), w);
    lemma_value_order(zero(), w);
    lemma_value_order(w, half);
}

/// A stronger warmth hit never leaves a higher cost factor.
pub proof fn warmer_is_never_dearer(weaker: Real, stronger: Real)
    requires
        weaker.finite(),
        stronger.finite(),
        zero().below(weaker),
        weaker.at_most(stronger),
    ensures
        warmth_factor(stronger).at_most(warmth_factor(weaker)),
{
    let half = Real { bits: WARMTH_MAX_DISCOUNT_BITS };
    let a = clamped(weaker, zero(), one());
    let b = clamped(stronger, zero(), one());
    lemma_one_value();
    lemma_value_order(zero(), weaker);
    lemma_value_order(zero(), stronger);
    lemma_value_order(one(), weaker);
    lemma_value_order(one(), stronger);
    assert(!a.negative() && a.magnitude() <= ONE_BITS);
    assert(!b.negative() && b.magnitude() <= ONE_BITS);
    product_is_monotone(a, b, half, half);
    product_is_monotone(a, one(), half, half);
    product_is_monotone(b, one(), half, half);
    lemma_value_order(product(one(), half), product(a, half));
    lemma_value_order(product(one(), half), product(b, half));
    lemma_nearest_of_units(WARMTH_MAX_DISCOUNT_BITS);
    lemma_pow2_pos(1074);
    lemma_nearest_bound(
        pow2(1074) * units(WARMTH_MAX_DISCOUNT_BITS),
        pow2(1074),
        WARMTH_MAX_DISCOUNT_BITS,
    );
    assert(pow2(1074) * units(WARMTH_MAX_DISCOUNT_BITS) == units(WARMTH_MAX_DISCOUNT_BITS) * pow2(
        1074,
    )) by (nonlinear_arith);
    difference_is_monotone(one(), product(a, half), product(b, half));
}

/// Utilisation of the decode pool, held below one.
pub open spec fn utilisation(reserved: nat, capacity: nat) -> Real {
    clamped(
        quotient(of_nat(reserved), of_nat(capacity)),
        zero(),
        Real { bits: PHI_MAX_UTILISATION_BITS },
    )
}

/// The memory-pressure penalty `1 / (1 - utilisation)`.
pub open spec fn phi_penalty(reserved: nat, capacity: nat) -> Real {
    quotient(one(), difference(one(), utilisation(reserved, capacity)))
}

/// The memory-pressure factor; a pool without capacity is the most expensive there is.
pub open spec fn phi_factor(reserved: nat, capacity: nat) -> Real {
    if capacity == 0 {
        most_expensive()
    } else {
        phi_penalty(reserved, capacity)
    }
}

/// Memory-pressure barrier from fleet utilisation.
pub fn phi_barrier(fleet_reserved: u64, capacity_bytes: u64) -> (r: BarrierFactor)
    ensures
        r.factor() == phi_factor(fleet_reserved as nat, capacity_bytes as nat),
{
    proof {
        lemma_extremes();
    }
    if capacity_bytes == 0 {
        return BarrierFactor::new(Real::from_bits(MAX_BITS)).unwrap();
    }
    proof {
        phi_penalty_is_bounded(fleet_reserved as nat, capacity_bytes as nat);
        lemma_value_order(Real { bits: PHI_MAX_UTILISATION_BITS }, zero());
    }
    let nil: Real = Real::from_bits(0);
    let full: Real = Real::from_bits(ONE_BITS);
    let util: Real = Real::from_u64(fleet_reserved).over(Real::from_u64(capacity_bytes)).clamp_to(
        nil,
        Real::from_bits(PHI_MAX_UTILISATION_BITS),
    );
    BarrierFactor::new(full.over(full.minus(util))).unwrap()
}

/// Memory-pressure barrier with one typical increment on top of the live reservation.
pub fn phi_barrier_marginal(fleet_reserved: u64, p90_increment: u64, capacity_bytes: u64) -> (r:
    BarrierFactor)
    ensures
        r.factor() == phi_factor(
            if fleet_reserved + p90_increment > u64::MAX {
                u64::MAX as nat
            } else {
                (fleet_reserved + p90_increment) as nat
            },
            capacity_bytes as nat,
        ),
{
    phi_barrier(fleet_marginal_bytes(fleet_reserved, p90_increment), capacity_bytes)
}

/// The free share of the pool, as the penalty divides by it.
spec fn headroom(reserved: nat, capacity: nat) -> u64 {
    nearest((pow2(1074) - units(utilisation(reserved, capacity).magnitude())) as nat, 1)
}

proof fn lemma_headroom(reserved: nat, capacity: nat)
    requires
        0 < capacity <= u64::MAX,
        reserved <= u64::MAX,
    ensures
        !utilisation(reserved, capacity).negative(),
        utilisation(reserved, capacity).magnitude() <= PHI_MAX_UTILISATION_BITS,
        units(utilisation(reserved, capacity).magnitude()) <= pow2(1074),
        difference(one(), utilisation(reserved, capacity)) == signed(
            false,
            headroom(reserved, capacity),
        ),
        headroom(reserved, capacity) <= ONE_BITS,
        pow2(1064) <= units(headroom(reserved, capacity)) <= pow2(1074),
        headroom(reserved, capacity) > 0,
{
    let cap = Real { bits: PHI_MAX_UTILISATION_BITS };
    let ratio = quotient(of_nat(reserved), of_nat(capacity));
    let util = utilisation(reserved, capacity);
    lemma_ratio_sign(reserved, capacity);
    lemma_value_order(cap, zero());
    lemma_value_order(ratio, zero());
    lemma_value_order(cap, ratio);
    let u = util.magnitude();
    lemma_one_value();
    lemma_units_increase(PHI_MAX_UTILISATION_BITS, ONE_BITS);
    if u < PHI_MAX_UTILISATION_BITS {
        lemma_units_increase(u, PHI_MAX_UTILISATION_BITS);
    }
    // 1 - 0.999 is above 2^-10
    lemma_cap_units();
    let v = pow2(1074) - units(u);
    lemma_units_of_power(1064);
    lemma_nearest_bound(v as nat, 1, ONE_BITS);
    lemma_nearest_bound(v as nat, 1, ((1064 - 51) * HIDDEN_BIT) as u64);
    let h = headroom(reserved, capacity);
    if h < ONE_BITS {
        lemma_units_increase(h, ONE_BITS);
    }
    if h > ((1064 - 51) * HIDDEN_BIT) as u64 {
        lemma_units_increase(((1064 - 51) * HIDDEN_BIT) as u64, h);
    }
    assert(negation(util).value() == -units(u)) by {
        assert(units(0) == 0) by (nonlinear_arith);
    }
    lemma_pow2_pos(1064);
}

proof fn lemma_cap_units()
    ensures
        units(PHI_MAX_UTILISATION_BITS) + pow2(1064) <= pow2(1074),
{
    lemma_pow2_adds(43, 1021);
    lemma_pow2_adds(53, 1021);
    lemma2_to64_rest();
    let k = pow2(1021);
    assert(crate::binary64::significand(PHI_MAX_UTILISATION_BITS) == 0x1f_f7ce_d916_872b);
    assert(crate::binary64::shift(PHI_MAX_UTILISATION_BITS) == 1021);
    assert(0x1f_f7ce_d916_872bint * k + 0x800_0000_0000int * k <= 0x20_0000_0000_0000int * k)
        by (nonlinear_arith)
        requires
            k >= 0,
    ;
}

/// A count of at least one has a positive, finite encoding.
proof fn lemma_count_encoding(n: nat)
    requires
        n <= u64::MAX,
    ensures
        n > 0 ==> nearest(n * pow2(1074), 1) >= ONE_BITS,
        nearest(n * pow2(1074), 1) < INFINITY_BITS,
{
    lemma_one_value();
    lemma_pow2_pos(1074);
    lemma_pow2_adds(64, 1074);
    vstd::arithmetic::power2::lemma2_to64();
    assert(n * pow2(1074) <= pow2(64) * pow2(1074)) by (nonlinear_arith)
        requires
            n <= pow2(64),
            pow2(1074) > 0,
    ;
    lemma_nearest_within(n * pow2(1074), 1, 1138);
    if n > 0 {
        assert(n * pow2(1074) >= pow2(1074) * 1) by (nonlinear_arith)
            requires
                n >= 1,
                pow2(1074) > 0,
        ;
        lemma_nearest_bound(n * pow2(1074), 1, ONE_BITS);
    }
}

proof fn lemma_ratio_sign(reserved: nat, capacity: nat)
    requires
        0 < capacity <= u64::MAX,
        reserved <= u64::MAX,
    ensures
        !quotient(of_nat(reserved), of_nat(capacity)).negative(),
        !quotient(of_nat(reserved), of_nat(capacity)).is_nan(),
        quotient(of_nat(reserved), of_nat(capacity)).magnitude() == nearest(
            units(nearest(reserved * pow2(1074), 1)) * pow2(1074),
            units(nearest(capacity * pow2(1074), 1)),
        ),
        units(nearest(capacity * pow2(1074), 1)) > 0,
{
    lemma_count_encoding(capacity);
    lemma_count_encoding(reserved);
    let cm = nearest(capacity * pow2(1074), 1);
    lemma_nearest_range(units(nearest(reserved * pow2(1074), 1)) * pow2(1074), units(cm));
    lemma_units_increase(0, cm);
}

/// The memory-pressure penalty lies between 1 and 1024.
pub proof fn phi_penalty_is_bounded(reserved: nat, capacity: nat)
    requires
        capacity > 0,
        reserved <= u64::MAX,
        capacity <= u64::MAX,
    ensures
        is_penalty(phi_penalty(reserved, capacity)),
        phi_penalty(reserved, capacity).magnitude() <= (1033 * HIDDEN_BIT) as u64,
        !phi_penalty(reserved, capacity).negative(),
{
    lemma_headroom(reserved, capacity);
    let h = headroom(reserved, capacity);
    lemma_one_value();
    lemma_pow2_adds(1084, 1064);
    lemma_pow2_adds(1074, 1074);
    lemma_pow2_pos(1074);
    lemma_pow2_pos(1064);
    lemma_units_of_power(1084);
    let n = pow2(1074) * pow2(1074);
    assert(n >= pow2(1074) * units(h)) by (nonlinear_arith)
        requires
            n == pow2(1074) * pow2(1074),
            units(h) <= pow2(1074),
            pow2(1074) > 0,
    ;
    assert(n <= pow2(1084) * units(h)) by (nonlinear_arith)
        requires
            n == pow2(1084) * pow2(1064),
            units(h) >= pow2(1064),
            pow2(1084) >= 0,
    ;
    lemma_nearest_bound(n, units(h), ONE_BITS);
    lemma_nearest_bound(n, units(h), ((1084 - 51) * HIDDEN_BIT) as u64);
    lemma_value_order(phi_penalty(reserved, capacity), one());
}

/// More reserved memory never lowers the penalty.
pub proof fn phi_rises_with_load(less: nat, more: nat, capacity: nat)
    requires
        less <= more <= u64::MAX,
        0 < capacity <= u64::MAX,
    ensures
        phi_penalty(less, capacity).at_most(phi_penalty(more, capacity)),
{
    lemma_headroom(less, capacity);
    lemma_headroom(more, capacity);
    lemma_ratio_sign(less, capacity);
    lemma_ratio_sign(more, capacity);
    phi_penalty_is_bounded(less, capacity);
    phi_penalty_is_bounded(more, capacity);
    lemma_count_encoding(less);
    lemma_count_encoding(more);
    lemma_pow2_pos(1074);
    let k = pow2(1074);
    let e1 = nearest(less * k, 1);
    let e2 = nearest(more * k, 1);
    assert((less * k) * 1 <= (more * k) * 1) by (nonlinear_arith)
        requires
            less <= more,
            k > 0,
    ;
    lemma_nearest_monotone(less * k, 1, more * k, 1);
    if e1 < e2 {
        lemma_units_increase(e1, e2);
    }
    let d = units(nearest(capacity * k, 1));
    assert((units(e1) * k) * d <= (units(e2) * k) * d) by (nonlinear_arith)
        requires
            units(e1) <= units(e2),
            k > 0,
            d > 0,
    ;
    lemma_nearest_monotone(units(e1) * k, d, units(e2) * k, d);
    let q1 = quotient(of_nat(less), of_nat(capacity));
    let q2 = quotient(of_nat(more), of_nat(capacity));
    let cap = Real { bits: PHI_MAX_UTILISATION_BITS };
    lemma_value_order(q1, zero());
    lemma_value_order(q2, zero());
    lemma_value_order(cap, q1);
    lemma_value_order(cap, q2);
    let u1 = utilisation(less, capacity).magnitude();
    let u2 = utilisation(more, capacity).magnitude();
    assert(u1 <= u2);
    if u1 < u2 {
        lemma_units_increase(u1, u2);
    }
    let h1 = headroom(less, capacity);
    let h2 = headroom(more, capacity);
    let v1 = (k - units(u1)) as nat;
    let v2 = (k - units(u2)) as nat;
    lemma_nearest_monotone(v2, 1, v1, 1);
    if h2 < h1 {
        lemma_units_increase(h2, h1);
    }
    lemma_one_value();
    let n = k * k;
    lemma_pow2_pos(1064);
    assert(n * units(h2) <= n * units(h1)) by (nonlinear_arith)
        requires
            units(h2) <= units(h1),
            n >= 0,
    ;
    lemma_nearest_monotone(n, units(h1), n, units(h2));
    lemma_value_order(phi_penalty(more, capacity), phi_penalty(less, capacity));
}

/// Whether a logarithm grows with its argument and is within bounds on usable factors.
pub open spec fn is_logarithm<F: Fn(Real) -> Real>(ln: F) -> bool {
    &&& forall|x: Real, y: Real|
        is_core(x) && is_core(y) && x.at_most(y) ==> (#[trigger] value_at(ln, x)).at_most(
            #[trigger] value_at(ln, y),
        )
    &&& forall|x: Real| is_core(x) ==> is_log_sized(#[trigger] value_at(ln, x))
    &&& value_at(ln, one()) == zero()
}

/// Each entry of one list is at most the one of the other.
pub open spec fn all_at_most(a: Seq<Real>, b: Seq<Real>) -> bool {
    &&& a.len() == b.len()
    &&& forall|i: int| 0 <= i < a.len() ==> (#[trigger] a[i]).at_most(b[i])
}

proof fn lemma_add_all_monotone(s: Real, t: Real, a: Seq<Real>, b: Seq<Real>, c: nat)
    requires
        all_at_most(a, b),
        s.finite(),
        t.finite(),
        s.at_most(t),
        c + a.len() < 2 * HIDDEN_BIT,
        -(c * pow2(1084)) <= s.value() <= c * pow2(1084),
        -(c * pow2(1084)) <= t.value() <= c * pow2(1084),
        forall|i: int| 0 <= i < a.len() ==> is_log_sized(#[trigger] a[i]),
        forall|i: int| 0 <= i < b.len() ==> is_log_sized(#[trigger] b[i]),
    ensures
        add_all(s, a).at_most(add_all(t, b)),
    decreases a.len(),
{
    if a.len() > 0 {
        let x = a.drop_last();
        let y = b.drop_last();
        assert forall|i: int| 0 <= i < x.len() implies (#[trigger] x[i]).at_most(y[i]) by {
            assert(a[i].at_most(b[i]));
        }
        assert forall|i: int| 0 <= i < x.len() implies is_log_sized(#[trigger] x[i]) by {
            assert(is_log_sized(a[i]));
        }
        assert forall|i: int| 0 <= i < y.len() implies is_log_sized(#[trigger] y[i]) by {
            assert(is_log_sized(b[i]));
        }
        lemma_add_all_monotone(s, t, x, y, c);
        lemma_add_all_within(s, x, c);
        lemma_add_all_within(t, y, c);
        assert(is_log_sized(a[a.len() - 1]));
        assert(is_log_sized(b[b.len() - 1]));
        assert(a[a.len() - 1].at_most(b[a.len() - 1]));
        sum_is_monotone(add_all(s, x), add_all(t, y), a.last(), b.last());
    }
}

/// Dearer factors never give a cheaper cost where nothing is corrected.
pub proof fn lemma_dearer_factors<F: Fn(Real) -> Real>(
    ln: F,
    core: Real,
    dearer_core: Real,
    barriers: Seq<Real>,
    dearer_barriers: Seq<Real>,
    discounts: Seq<Real>,
    dearer_discounts: Seq<Real>,
)
    requires
        is_logarithm(ln),
        is_core(core),
        is_core(dearer_core),
        core.at_most(dearer_core),
        all_at_most(barriers, dearer_barriers),
        all_at_most(discounts, dearer_discounts),
        forall|i: int| 0 <= i < barriers.len() ==> is_penalty(#[trigger] barriers[i]),
        forall|i: int| 0 <= i < barriers.len() ==> is_penalty(#[trigger] dearer_barriers[i]),
        forall|i: int| 0 <= i < discounts.len() ==> is_reward(#[trigger] discounts[i]),
        forall|i: int| 0 <= i < discounts.len() ==> is_reward(#[trigger] dearer_discounts[i]),
        barriers.len() + discounts.len() < HIDDEN_BIT,
    ensures
        total_log(factor_logs(ln, core, barriers, discounts, one())).at_most(
            total_log(factor_logs(ln, dearer_core, dearer_barriers, dearer_discounts, one())),
        ),
{
    let low = factor_logs(ln, core, barriers, discounts, one());
    let high = factor_logs(ln, dearer_core, dearer_barriers, dearer_discounts, one());
    lemma_value_order(zero(), one());
    assert forall|x: Real| is_penalty(x) implies is_core(x) by {
        lemma_value_order(zero(), x);
    }
    assert forall|i: int| 0 <= i < low.barriers.len() implies (#[trigger] low.barriers[i]).at_most(
        high.barriers[i],
    ) && is_log_sized(low.barriers[i]) && is_log_sized(high.barriers[i]) by {
        assert(is_penalty(barriers[i]) && is_penalty(dearer_barriers[i]));
        assert(barriers[i].at_most(dearer_barriers[i]));
    }
    assert forall|i: int| 0 <= i < low.discounts.len() implies (
    #[trigger] low.discounts[i]).at_most(high.discounts[i]) && is_log_sized(low.discounts[i])
        && is_log_sized(high.discounts[i]) by {
        assert(is_reward(discounts[i]) && is_reward(dearer_discounts[i]));
        assert(discounts[i].at_most(dearer_discounts[i]));
    }
    assert forall|i: int| 0 <= i < high.barriers.len() implies is_log_sized(
        #[trigger] high.barriers[i],
    ) by {
        assert(low.barriers[i].at_most(high.barriers[i]));
    }
    assert forall|i: int| 0 <= i < high.discounts.len() implies is_log_sized(
        #[trigger] high.discounts[i],
    ) by {
        assert(low.discounts[i].at_most(high.discounts[i]));
    }
    assert(1 * pow2(1084) == pow2(1084));
    let b = barriers.len();
    lemma_add_all_monotone(low.core, high.core, low.barriers, high.barriers, 1);
    lemma_add_all_within(low.core, low.barriers, 1);
    lemma_add_all_within(high.core, high.barriers, 1);
    lemma_add_all_monotone(
        add_all(low.core, low.barriers),
        add_all(high.core, high.barriers),
        low.discounts,
        high.discounts,
        1 + b,
    );
}

/// The logarithms of usable factors are of the size of logarithms.
pub proof fn lemma_factor_logs<F: Fn(Real) -> Real>(
    ln: F,
    core: Real,
    barriers: Seq<Real>,
    discounts: Seq<Real>,
)
    requires
        is_logarithm(ln),
        is_core(core),
        forall|i: int| 0 <= i < barriers.len() ==> is_penalty(#[trigger] barriers[i]),
        forall|i: int| 0 <= i < discounts.len() ==> is_reward(#[trigger] discounts[i]),
    ensures
        ({
            let logs = factor_logs(ln, core, barriers, discounts, one());
            &&& is_log_sized(logs.core)
            &&& logs.barriers.len() == barriers.len()
            &&& logs.discounts.len() == discounts.len()
            &&& logs.corrector is None
            &&& forall|i: int|
                0 <= i < logs.barriers.len() ==> is_log_sized(#[trigger] logs.barriers[i])
            &&& forall|i: int|
                0 <= i < logs.discounts.len() ==> is_log_sized(#[trigger] logs.discounts[i])
        }),
{
    let logs = factor_logs(ln, core, barriers, discounts, one());
    lemma_value_order(zero(), one());
    assert forall|i: int| 0 <= i < logs.barriers.len() implies is_log_sized(
        #[trigger] logs.barriers[i],
    ) by {
        assert(is_penalty(barriers[i]));
        lemma_value_order(zero(), barriers[i]);
    }
    assert forall|i: int| 0 <= i < logs.discounts.len() implies is_log_sized(
        #[trigger] logs.discounts[i],
    ) by {
        assert(is_reward(discounts[i]));
    }
}

proof fn lemma_one_more_penalty<F: Fn(Real) -> Real>(
    ln: F,
    core: Real,
    barriers: Seq<Real>,
    discounts: Seq<Real>,
    penalty: Real,
)
    requires
        is_logarithm(ln),
        is_core(core),
        forall|i: int| 0 <= i < barriers.len() ==> is_penalty(#[trigger] barriers[i]),
        forall|i: int| 0 <= i < discounts.len() ==> is_reward(#[trigger] discounts[i]),
        is_penalty(penalty),
        barriers.len() + discounts.len() < HIDDEN_BIT,
    ensures
        total_log(factor_logs(ln, core, barriers, discounts, one())).at_most(
            total_log(factor_logs(ln, core, barriers.push(penalty), discounts, one())),
        ),
{
    let low = factor_logs(ln, core, barriers, discounts, one());
    let high = factor_logs(ln, core, barriers.push(penalty), discounts, one());
    lemma_factor_logs(ln, core, barriers, discounts);
    lemma_extremes();
    lemma_value_order(zero(), penalty);
    lemma_value_order(zero(), one());
    assert(high.barriers.drop_last() =~= low.barriers);
    assert(high.barriers.last() == value_at(ln, penalty));
    assert(high.discounts =~= low.discounts);
    assert(1 * pow2(1084) == pow2(1084));
    let b = barriers.len();
    let base = add_all(low.core, low.barriers);
    lemma_add_all_within(low.core, low.barriers, 1);
    assert(value_at(ln, one()).at_most(value_at(ln, penalty)));
    adding_never_lowers(base, value_at(ln, penalty));
    lemma_sum_within(base, value_at(ln, penalty), 1 + b);
    assert((b + 2) * pow2(1084) >= (b + 1) * pow2(1084)) by (nonlinear_arith)
        requires
            pow2(1084) >= 0,
    ;
    lemma_add_all_monotone(
        base,
        sum(base, value_at(ln, penalty)),
        low.discounts,
        low.discounts,
        b + 2,
    );
}

proof fn lemma_one_more_reward<F: Fn(Real) -> Real>(
    ln: F,
    core: Real,
    barriers: Seq<Real>,
    discounts: Seq<Real>,
    reward: Real,
)
    requires
        is_logarithm(ln),
        is_core(core),
        forall|i: int| 0 <= i < barriers.len() ==> is_penalty(#[trigger] barriers[i]),
        forall|i: int| 0 <= i < discounts.len() ==> is_reward(#[trigger] discounts[i]),
        is_reward(reward),
        barriers.len() + discounts.len() < HIDDEN_BIT,
    ensures
        total_log(factor_logs(ln, core, barriers, discounts.push(reward), one())).at_most(
            total_log(factor_logs(ln, core, barriers, discounts, one())),
        ),
{
    let low = factor_logs(ln, core, barriers, discounts.push(reward), one());
    let high = factor_logs(ln, core, barriers, discounts, one());
    lemma_factor_logs(ln, core, barriers, discounts);
    lemma_extremes();
    lemma_value_order(zero(), one());
    composed_cost_is_exact(high);
    assert(low.discounts.drop_last() =~= high.discounts);
    assert(low.discounts.last() == value_at(ln, reward));
    assert(low.barriers =~= high.barriers);
    let plain = total_log(high);
    assert(value_at(ln, reward).at_most(value_at(ln, one())));
    sum_is_monotone(plain, plain, value_at(ln, reward), zero());
    lemma_sum_value(plain, zero());
    lemma_nearest_of_units(plain.magnitude());
    assert(units(0) == 0) by (nonlinear_arith);
}

/// A corrector keeps the order of two log-costs.
proof fn lemma_corrector_keeps_order<F: Fn(Real) -> Real>(
    ln: F,
    core: Real,
    barriers: Seq<Real>,
    discounts: Seq<Real>,
    dearer_core: Real,
    dearer_barriers: Seq<Real>,
    dearer_discounts: Seq<Real>,
    delta: Real,
)
    requires
        is_logarithm(ln),
        total_log(factor_logs(ln, core, barriers, discounts, one())).finite(),
        total_log(factor_logs(ln, dearer_core, dearer_barriers, dearer_discounts, one())).finite(),
        total_log(factor_logs(ln, core, barriers, discounts, one())).at_most(
            total_log(factor_logs(ln, dearer_core, dearer_barriers, dearer_discounts, one())),
        ),
    ensures
        total_log(factor_logs(ln, core, barriers, discounts, corrected(delta))).at_most(
            total_log(
                factor_logs(
                    ln,
                    dearer_core,
                    dearer_barriers,
                    dearer_discounts,
                    corrected(delta),
                ),
            ),
        ),
{
    lemma_corrector_log(ln, delta);
    if corrected(delta) != one() {
        let c = value_at(ln, corrected(delta));
        sum_is_monotone(
            total_log(factor_logs(ln, core, barriers, discounts, one())),
            total_log(factor_logs(ln, dearer_core, dearer_barriers, dearer_discounts, one())),
            c,
            c,
        );
    }
}

/// Dearer factors never give a cheaper cost, whatever the corrector: a longer time, higher
/// penalties or smaller rewards can only raise it. As an unusable signal becomes the least
/// attractive factor, a broken signal never makes a target look cheaper.
pub proof fn dearer_factors_never_cheapen<F: Fn(Real) -> Real>(
    ln: F,
    core: Real,
    dearer_core: Real,
    barriers: Seq<Real>,
    dearer_barriers: Seq<Real>,
    discounts: Seq<Real>,
    dearer_discounts: Seq<Real>,
    delta: Real,
)
    requires
        is_logarithm(ln),
        is_core(core),
        is_core(dearer_core),
        core.at_most(dearer_core),
        all_at_most(barriers, dearer_barriers),
        all_at_most(discounts, dearer_discounts),
        forall|i: int| 0 <= i < barriers.len() ==> is_penalty(#[trigger] barriers[i]),
        forall|i: int| 0 <= i < barriers.len() ==> is_penalty(#[trigger] dearer_barriers[i]),
        forall|i: int| 0 <= i < discounts.len() ==> is_reward(#[trigger] discounts[i]),
        forall|i: int| 0 <= i < discounts.len() ==> is_reward(#[trigger] dearer_discounts[i]),
        barriers.len() + discounts.len() < HIDDEN_BIT,
    ensures
        total_log(factor_logs(ln, core, barriers, discounts, corrected(delta))).at_most(
            total_log(
                factor_logs(
                    ln,
                    dearer_core,
                    dearer_barriers,
                    dearer_discounts,
                    corrected(delta),
                ),
            ),
        ),
{
    lemma_dearer_factors(
        ln,
        core,
        dearer_core,
        barriers,
        dearer_barriers,
        discounts,
        dearer_discounts,
    );
    lemma_factor_logs(ln, core, barriers, discounts);
    lemma_factor_logs(ln, dearer_core, dearer_barriers, dearer_discounts);
    composed_cost_is_exact(factor_logs(ln, core, barriers, discounts, one()));
    composed_cost_is_exact(
        factor_logs(ln, dearer_core, dearer_barriers, dearer_discounts, one()),
    );
    lemma_corrector_keeps_order(
        ln,
        core,
        barriers,
        discounts,
        dearer_core,
        dearer_barriers,
        dearer_discounts,
        delta,
    );
}

/// One more penalty never makes a cost cheaper, whatever the corrector.
pub proof fn penalty_never_cheapens<F: Fn(Real) -> Real>(
    ln: F,
    core: Real,
    barriers: Seq<Real>,
    discounts: Seq<Real>,
    penalty: Real,
    delta: Real,
)
    requires
        is_logarithm(ln),
        is_core(core),
        forall|i: int| 0 <= i < barriers.len() ==> is_penalty(#[trigger] barriers[i]),
        forall|i: int| 0 <= i < discounts.len() ==> is_reward(#[trigger] discounts[i]),
        is_penalty(penalty),
        barriers.len() + discounts.len() + 1 < HIDDEN_BIT,
    ensures
        total_log(factor_logs(ln, core, barriers, discounts, corrected(delta))).at_most(
            total_log(
                factor_logs(ln, core, barriers.push(penalty), discounts, corrected(delta)),
            ),
        ),
{
    let more = barriers.push(penalty);
    lemma_one_more_penalty(ln, core, barriers, discounts, penalty);
    assert forall|i: int| 0 <= i < more.len() implies is_penalty(#[trigger] more[i]) by {
        if i < barriers.len() {
            assert(is_penalty(barriers[i]));
        }
    }
    lemma_factor_logs(ln, core, barriers, discounts);
    lemma_factor_logs(ln, core, more, discounts);
    composed_cost_is_exact(factor_logs(ln, core, barriers, discounts, one()));
    composed_cost_is_exact(factor_logs(ln, core, more, discounts, one()));
    lemma_corrector_keeps_order(ln, core, barriers, discounts, core, more, discounts, delta);
}

/// One more reward never makes a cost dearer, whatever the corrector.
pub proof fn reward_never_raises<F: Fn(Real) -> Real>(
    ln: F,
    core: Real,
    barriers: Seq<Real>,
    discounts: Seq<Real>,
    reward: Real,
    delta: Real,
)
    requires
        is_logarithm(ln),
        is_core(core),
        forall|i: int| 0 <= i < barriers.len() ==> is_penalty(#[trigger] barriers[i]),
        forall|i: int| 0 <= i < discounts.len() ==> is_reward(#[trigger] discounts[i]),
        is_reward(reward),
        barriers.len() + discounts.len() + 1 < HIDDEN_BIT,
    ensures
        total_log(
            factor_logs(ln, core, barriers, discounts.push(reward), corrected(delta)),
        ).at_most(total_log(factor_logs(ln, core, barriers, discounts, corrected(delta)))),
{
    let more = discounts.push(reward);
    lemma_one_more_reward(ln, core, barriers, discounts, reward);
    assert forall|i: int| 0 <= i < more.len() implies is_reward(#[trigger] more[i]) by {
        if i < discounts.len() {
            assert(is_reward(discounts[i]));
        }
    }
    lemma_factor_logs(ln, core, barriers, discounts);
    lemma_factor_logs(ln, core, barriers, more);
    composed_cost_is_exact(factor_logs(ln, core, barriers, discounts, one()));
    composed_cost_is_exact(factor_logs(ln, core, barriers, more, one()));
    lemma_corrector_keeps_order(ln, core, barriers, more, core, barriers, discounts, delta);
}

/// Whatever a corrector was fed, it moves a log-cost by no more than the logarithms of its
/// envelope.
pub proof fn corrector_shift_is_bounded<F: Fn(Real) -> Real>(
    ln: F,
    core: Real,
    barriers: Seq<Real>,
    discounts: Seq<Real>,
    delta: Real,
)
    requires
        is_logarithm(ln),
        is_core(core),
        forall|i: int| 0 <= i < barriers.len() ==> is_penalty(#[trigger] barriers[i]),
        forall|i: int| 0 <= i < discounts.len() ==> is_reward(#[trigger] discounts[i]),
        barriers.len() + discounts.len() < HIDDEN_BIT,
    ensures
        ({
            let plain = total_log(factor_logs(ln, core, barriers, discounts, one()));
            let moved = total_log(
                factor_logs(ln, core, barriers, discounts, corrected(delta)),
            );
            &&& sum(plain, value_at(ln, corrector_floor())).at_most(moved)
            &&& moved.at_most(sum(plain, value_at(ln, corrector_ceiling())))
        }),
{
    let logs = factor_logs(ln, core, barriers, discounts, one());
    let plain = total_log(logs);
    corrector_is_bounded(delta);
    lemma_extremes();
    lemma_value_order(zero(), one());
    assert forall|i: int| 0 <= i < logs.barriers.len() implies is_log_sized(
        #[trigger] logs.barriers[i],
    ) by {
        assert(is_penalty(barriers[i]));
        lemma_value_order(zero(), barriers[i]);
    }
    assert forall|i: int| 0 <= i < logs.discounts.len() implies is_log_sized(
        #[trigger] logs.discounts[i],
    ) by {
        assert(is_reward(discounts[i]));
    }
    composed_cost_is_exact(logs);
    let d = corrected(delta);
    assert(is_core(d)) by {
        lemma_value_order(corrector_ceiling(), d);
        lemma_value_order(zero(), d);
    }
    assert(is_core(corrector_floor()));
    assert(is_core(corrector_ceiling())) by {
        lemma_value_order(zero(), corrector_ceiling());
    }
    sum_is_monotone(plain, plain, value_at(ln, corrector_floor()), value_at(ln, d));
    sum_is_monotone(plain, plain, value_at(ln, d), value_at(ln, corrector_ceiling()));
    if d == one() {
        lemma_sum_value(plain, zero());
        lemma_nearest_of_units(plain.magnitude());
        assert(units(0) == 0) by (nonlinear_arith);
    }
}

/// The exact sum of some values, in smallest units.
pub open spec fn exact_sum(terms: Seq<Real>) -> int
    decreases terms.len(),
{
    if terms.len() == 0 {
        0
    } else {
        exact_sum(terms.drop_last()) + terms.last().value()
    }
}

/// How far one value is from another.
pub open spec fn apart(a: int, b: int) -> int {
    if a < b {
        b - a
    } else {
        a - b
    }
}

/// Each addition is off by at most half a step below `2^30`.
proof fn lemma_add_all_error(start: Real, terms: Seq<Real>, c: nat)
    requires
        c + terms.len() < 0x10_0000,
        start.finite(),
        -(c * pow2(1084)) <= start.value() <= c * pow2(1084),
        forall|i: int| 0 <= i < terms.len() ==> is_log_sized(#[trigger] terms[i]),
    ensures
        apart(add_all(start, terms).value(), start.value() + exact_sum(terms)) <= terms.len()
            * pow2(1050),
    decreases terms.len(),
{
    let h = pow2(1050);
    if terms.len() > 0 {
        let rest = terms.drop_last();
        assert forall|i: int| 0 <= i < rest.len() implies is_log_sized(#[trigger] rest[i]) by {
            assert(is_log_sized(terms[i]));
        }
        lemma_add_all_error(start, rest, c);
        lemma_add_all_within(start, rest, c);
        assert(is_log_sized(terms[terms.len() - 1]));
        let before = add_all(start, rest);
        let n = (c + rest.len()) as nat;
        let k = pow2(1084);
        lemma_pow2_pos(1084);
        lemma_pow2_adds(20, 1084);
        lemma2_to64();
        assert((n + 1) * k == n * k + k) by (nonlinear_arith);
        assert((n + 1) * k < 0x10_0000 * k) by (nonlinear_arith)
            requires
                n + 1 < 0x10_0000,
                k > 0,
        ;
        lemma_sum_error(before, terms.last(), 1104);
        assert(terms.len() * h == rest.len() * h + h) by (nonlinear_arith)
            requires
                terms.len() == rest.len() + 1,
        ;
    } else {
        assert(0 * h == 0);
    }
}

/// The sum of the logarithms of all factors, before any rounding, in smallest units.
pub open spec fn exact_log<F: Fn(Real) -> Real>(
    ln: F,
    core: Real,
    barriers: Seq<Real>,
    discounts: Seq<Real>,
    delta: Real,
) -> int {
    let logs = factor_logs(ln, core, barriers, discounts, delta);
    logs.core.value() + exact_sum(logs.barriers) + exact_sum(logs.discounts) + value_at(
        ln,
        delta,
    ).value()
}

/// The logarithm of a corrected value lies between those of the ends of the envelope.
proof fn lemma_corrector_log<F: Fn(Real) -> Real>(ln: F, delta: Real)
    requires
        is_logarithm(ln),
    ensures
        is_log_sized(value_at(ln, corrected(delta))),
        value_at(ln, corrector_floor()).value() <= value_at(ln, corrected(delta)).value(),
        value_at(ln, corrected(delta)).value() <= value_at(ln, corrector_ceiling()).value(),
        value_at(ln, corrector_floor()).value() <= 0 <= value_at(ln, corrector_ceiling()).value(),
{
    corrector_is_bounded(delta);
    lemma_extremes();
    let d = corrected(delta);
    lemma_value_order(zero(), one());
    lemma_value_order(corrector_ceiling(), d);
    lemma_value_order(zero(), d);
    lemma_value_order(zero(), corrector_ceiling());
    lemma_value_order(zero(), corrector_floor());
    assert(is_core(d) && is_core(corrector_floor()) && is_core(corrector_ceiling()));
    assert(is_core(one()));
    assert(value_at(ln, corrector_floor()).at_most(value_at(ln, d)));
    assert(value_at(ln, d).at_most(value_at(ln, corrector_ceiling())));
    assert(value_at(ln, corrector_floor()).at_most(value_at(ln, one())));
    assert(value_at(ln, one()).at_most(value_at(ln, corrector_ceiling())));
    assert(units(0) == 0) by (nonlinear_arith);
}

/// With fewer than a million usable factors and any corrector the log-cost is finite, needs no
/// saturation, and is the sum of the logarithms of all factors up to rounding: each addition is
/// off by at most `2^-24`.
pub proof fn composed_log_is_the_sum<F: Fn(Real) -> Real>(
    ln: F,
    core: Real,
    barriers: Seq<Real>,
    discounts: Seq<Real>,
    delta: Real,
)
    requires
        is_logarithm(ln),
        is_core(core),
        forall|i: int| 0 <= i < barriers.len() ==> is_penalty(#[trigger] barriers[i]),
        forall|i: int| 0 <= i < discounts.len() ==> is_reward(#[trigger] discounts[i]),
        barriers.len() + discounts.len() < 1_000_000,
    ensures
        ({
            let log = total_log(factor_logs(ln, core, barriers, discounts, corrected(delta)));
            &&& log.finite()
            &&& finite_or_highest(log) == log
            &&& apart(log.value(), exact_log(ln, core, barriers, discounts, corrected(delta))) <= (
            barriers.len() + discounts.len() + 1) * pow2(1050)
        }),
{
    let logs = factor_logs(ln, core, barriers, discounts, corrected(delta));
    let b = barriers.len();
    let d = discounts.len();
    let h = pow2(1050);
    let k = pow2(1084);
    lemma_pow2_pos(1050);
    lemma_pow2_pos(1084);
    lemma_factor_logs(ln, core, barriers, discounts);
    lemma_corrector_log(ln, delta);
    assert(1 * k == k);
    let first = add_all(logs.core, logs.barriers);
    let second = add_all(first, logs.discounts);
    lemma_add_all_error(logs.core, logs.barriers, 1);
    lemma_add_all_within(logs.core, logs.barriers, 1);
    lemma_add_all_error(first, logs.discounts, 1 + b);
    lemma_add_all_within(first, logs.discounts, 1 + b);
    assert((b + d + 1) * h == b * h + d * h + h) by (nonlinear_arith);
    if corrected(delta) != one() {
        let c = value_at(ln, corrected(delta));
        let n = (1 + b + d) as nat;
        lemma_pow2_adds(20, 1084);
        lemma2_to64();
        assert((n + 1) * k == n * k + k) by (nonlinear_arith);
        assert((n + 1) * k < 0x10_0000 * k) by (nonlinear_arith)
            requires
                n + 1 < 0x10_0000,
                k > 0,
        ;
        lemma_sum_error(second, c, 1104);
    } else {
        assert(units(0) == 0) by (nonlinear_arith);
    }
}

/// The widest that a corrector may move a log-cost: the larger of `ln(1 + alpha)` and
/// `-ln(1 - alpha)`, in smallest units.
pub open spec fn widest_shift<F: Fn(Real) -> Real>(ln: F) -> int {
    let up = value_at(ln, corrector_ceiling()).value();
    let down = -value_at(ln, corrector_floor()).value();
    if up < down {
        down
    } else {
        up
    }
}

/// Whatever a corrector was fed, with fewer than a million factors it moves the log-cost by at most
/// the larger of `ln(1 + alpha)` and `-ln(1 - alpha)`, up to the rounding of one addition. That
/// rounding is below `1e-9` for every log-cost below `2^24 - 1024`, and so with fewer than 16000
/// factors in any case.
pub proof fn corrector_shift_in_numbers<F: Fn(Real) -> Real>(
    ln: F,
    core: Real,
    barriers: Seq<Real>,
    discounts: Seq<Real>,
    delta: Real,
)
    requires
        is_logarithm(ln),
        is_core(core),
        forall|i: int| 0 <= i < barriers.len() ==> is_penalty(#[trigger] barriers[i]),
        forall|i: int| 0 <= i < discounts.len() ==> is_reward(#[trigger] discounts[i]),
        barriers.len() + discounts.len() < 1_000_000,
    ensures
        ({
            let plain = total_log(factor_logs(ln, core, barriers, discounts, one())).value();
            let moved = total_log(
                factor_logs(ln, core, barriers, discounts, corrected(delta)),
            ).value();
            let small = pow2(1098) - pow2(1084);
            &&& apart(moved, plain) <= widest_shift(ln) + pow2(1050)
            &&& -small < plain < small ==> 1_000_000_000 * (apart(moved, plain) - widest_shift(ln))
                <= pow2(1074)
            &&& barriers.len() + discounts.len() < 16_000 ==> -small < plain < small
        }),
{
    let logs = factor_logs(ln, core, barriers, discounts, one());
    let plain = total_log(logs);
    let b = barriers.len();
    let d = discounts.len();
    let k = pow2(1084);
    lemma_pow2_pos(1044);
    lemma_pow2_pos(1050);
    lemma_pow2_pos(1084);
    lemma_factor_logs(ln, core, barriers, discounts);
    lemma_corrector_log(ln, delta);
    assert(1 * k == k);
    let first = add_all(logs.core, logs.barriers);
    lemma_add_all_within(logs.core, logs.barriers, 1);
    lemma_add_all_within(first, logs.discounts, 1 + b);
    let n = (1 + b + d) as nat;
    lemma_pow2_adds(14, 1084);
    lemma_pow2_adds(20, 1084);
    lemma_pow2_adds(30, 1044);
    lemma2_to64();
    assert((n + 1) * k == n * k + k) by (nonlinear_arith);
    assert((n + 1) * k < 0x10_0000 * k) by (nonlinear_arith)
        requires
            n + 1 < 0x10_0000,
            k > 0,
    ;
    if b + d < 16_000 {
        assert((n + 1) * k < 0x4000 * k) by (nonlinear_arith)
            requires
                n + 1 < 0x4000,
                k > 0,
        ;
    }
    if corrected(delta) != one() {
        let c = value_at(ln, corrected(delta));
        lemma_sum_error(plain, c, 1104);
        if -(pow2(1098) - k) < plain.value() < pow2(1098) - k {
            lemma_sum_error(plain, c, 1098);
        }
    }
}

} // verus!
