//! Replay of fleet traces: load planning and the gates on what a replay showed.

use vstd::prelude::*;
use vstd::string::*;
use crate::binary64::{
    clamped, difference, larger, lemma_value_order, of_nat, one, product, quotient, rounded, sum,
    truncated, zero, Real, ONE_BITS,
};
use crate::elementary::{evaluate, is_function, value_at};
use crate::factors::add_all;
use crate::rcu::share;
use crate::rebalancer::{
    to_share, wanted_share, PoolPressure, PoolRebalancer, RebalancerMode, HALF_BITS,
};
use crate::text::{split, split_text, trim, trim_text, views};

verus! {

/// 0.05, as a bit pattern.
pub const C_0_05: u64 = 0x3fa9_9999_9999_999a;

/// 0.1, as a bit pattern.
pub const C_0_10: u64 = 0x3fb9_9999_9999_999a;

/// 0.25, as a bit pattern.
pub const C_0_25: u64 = 0x3fd0_0000_0000_0000;

/// 0.35, as a bit pattern.
pub const C_0_35: u64 = 0x3fd6_6666_6666_6666;

/// 0.4, as a bit pattern.
pub const C_0_40: u64 = 0x3fd9_9999_9999_999a;

/// 0.45, as a bit pattern.
pub const C_0_45: u64 = 0x3fdc_cccc_cccc_cccd;

/// 0.5, as a bit pattern.
pub const C_0_50: u64 = 0x3fe0_0000_0000_0000;

/// 0.55, as a bit pattern.
pub const C_0_55: u64 = 0x3fe1_9999_9999_999a;

/// 0.6, as a bit pattern.
pub const C_0_60: u64 = 0x3fe3_3333_3333_3333;

/// 0.7, as a bit pattern.
pub const C_0_70: u64 = 0x3fe6_6666_6666_6666;

/// 0.95, as a bit pattern.
pub const C_0_95: u64 = 0x3fee_6666_6666_6666;

/// 1.6, as a bit pattern.
pub const C_1_60: u64 = 0x3ff9_9999_9999_999a;

/// 2, as a bit pattern.
pub const C_2_00: u64 = 0x4000_0000_0000_0000;

/// 2.5, as a bit pattern.
pub const C_2_50: u64 = 0x4004_0000_0000_0000;

/// Spread below which values count as constant (1e-12), as a bit pattern.
pub const SPREAD_FLOOR_BITS: u64 = 0x3d71_9799_812d_ea11;

/// One window of a trace.
#[derive(Debug, Clone, Copy, PartialEq, Eq, Structural)]
pub struct TraceWindow {
    pub ts_ms: u64,
    pub q_prefill: Real,
    pub q_decode: Real,
    pub kv_decode: Real,
    pub slo_prefill: Real,
    pub slo_decode: Real,
    pub fp_share: Real,
    pub prefill_heavy: bool,
    /// Whether the window is kept for evaluation.
    pub held_out: bool,
}

/// The pressure in a window, each signal held between zero and one.
pub open spec fn window_pressure(w: TraceWindow) -> PoolPressure {
    PoolPressure {
        q_prefill: share(w.q_prefill),
        q_decode: share(w.q_decode),
        kv_decode: share(w.kv_decode),
        slo_prefill: share(w.slo_prefill),
        slo_decode: share(w.slo_decode),
        fp_share: share(w.fp_share),
    }
}

impl TraceWindow {
    /// The pressure in the window.
    pub fn pressure(&self) -> (r: PoolPressure)
        ensures
            r == window_pressure(*self),
    {
        PoolPressure {
            q_prefill: to_share(self.q_prefill),
            q_decode: to_share(self.q_decode),
            kv_decode: to_share(self.kv_decode),
            slo_prefill: to_share(self.slo_prefill),
            slo_decode: to_share(self.slo_decode),
            fp_share: to_share(self.fp_share),
        }
    }
}

/// What the rebalancer would have done in a window.
#[derive(Debug, Clone, Copy, PartialEq, Eq, Structural)]
pub struct WindowReplay {
    pub ts_ms: u64,
    pub pi_star: Real,
    pub prefill_heavy: bool,
    pub held_out: bool,
}

/// The result of replaying a trace.
#[derive(Debug)]
pub struct FleetPilotReport {
    pub train_windows: usize,
    pub heldout_windows: usize,
    pub heldout_correlation: Real,
    pub heldout_mean_pi_heavy: Real,
    pub heldout_mean_pi_light: Real,
    pub gate_pass: bool,
    pub replays: Vec<WindowReplay>,
}

/// Values whose label is `wanted`, in order.
pub open spec fn labelled(values: Seq<Real>, labels: Seq<bool>, wanted: bool) -> Seq<Real>
    decreases values.len(),
{
    if values.len() == 0 || values.len() != labels.len() {
        Seq::empty()
    } else {
        let before = labelled(values.drop_last(), labels.drop_last(), wanted);
        if labels.last() == wanted {
            before.push(values.last())
        } else {
            before
        }
    }
}

/// Squared distances from a centre.
pub open spec fn squares(values: Seq<Real>, centre: Real) -> Seq<Real> {
    values.map_values(
        |v: Real| product(difference(v, centre), difference(v, centre)),
    )
}

/// The plain mean.
pub open spec fn average(values: Seq<Real>) -> Real {
    quotient(add_all(zero(), values), of_nat(values.len()))
}

/// Point-biserial correlation of values with a yes-or-no label.
pub open spec fn correlation<F: Fn(Real) -> Real>(
    values: Seq<Real>,
    labels: Seq<bool>,
    sqrt: F,
) -> Real {
    let n = of_nat(values.len());
    let high = labelled(values, labels, true);
    let low = labelled(values, labels, false);
    let spread = value_at(
        sqrt,
        quotient(add_all(zero(), squares(values, average(values))), n),
    );
    if values.len() != labels.len() || values.len() < 2 || high.len() == 0 || low.len() == 0
        || spread.at_most(Real { bits: SPREAD_FLOOR_BITS }) {
        zero()
    } else {
        let p = quotient(of_nat(high.len()), n);
        product(
            quotient(difference(average(high), average(low)), spread),
            value_at(sqrt, product(p, difference(one(), p))),
        )
    }
}

fn sum_of(values: &Vec<Real>) -> (r: Real)
    ensures
        r == add_all(zero(), values@),
{
    let n: usize = values.len();
    let mut total: Real = Real::from_bits(0);
    for i in 0..n
        invariant
            n == values@.len(),
            total == add_all(zero(), values@.take(i as int)),
    {
        assert(values@.take(i + 1).drop_last() =~= values@.take(i as int));
        total = total.plus(values[i]);
    }
    assert(values@.take(n as int) =~= values@);
    total
}

fn average_of(values: &Vec<Real>) -> (r: Real)
    ensures
        r == average(values@),
{
    sum_of(values).over(Real::from_u64(values.len() as u64))
}

fn with_label(values: &Vec<Real>, labels: &Vec<bool>, wanted: bool) -> (r: Vec<Real>)
    requires
        values@.len() == labels@.len(),
    ensures
        r@ == labelled(values@, labels@, wanted),
{
    let n: usize = values.len();
    let mut out: Vec<Real> = Vec::new();
    for i in 0..n
        invariant
            n == values@.len() == labels@.len(),
            out@ == labelled(values@.take(i as int), labels@.take(i as int), wanted),
    {
        assert(values@.take(i + 1).drop_last() =~= values@.take(i as int));
        assert(labels@.take(i + 1).drop_last() =~= labels@.take(i as int));
        if labels[i] == wanted {
            out.push(values[i]);
        }
    }
    assert(values@.take(n as int) =~= values@);
    assert(labels@.take(n as int) =~= labels@);
    out
}

/// Computes the point-biserial correlation; `sqrt` is the square root.
pub fn point_biserial_corr<F: Fn(Real) -> Real + Copy>(
    values: &Vec<Real>,
    labels: &Vec<bool>,
    sqrt: F,
) -> (r: Real)
    requires
        is_function(sqrt),
    ensures
        r == correlation(values@, labels@, sqrt),
{
    if values.len() != labels.len() || values.len() < 2 {
        return Real::from_bits(0);
    }
    let count: usize = values.len();
    let n: Real = Real::from_u64(count as u64);
    let centre: Real = average_of(values);
    let mut distances: Vec<Real> = Vec::new();
    for i in 0..count
        invariant
            count == values@.len(),
            distances@ =~= squares(values@, centre).take(i as int),
    {
        let d: Real = values[i].minus(centre);
        distances.push(d.times(d));
    }
    assert(distances@ =~= squares(values@, centre));
    let high: Vec<Real> = with_label(values, labels, true);
    let low: Vec<Real> = with_label(values, labels, false);
    if high.len() == 0 || low.len() == 0 {
        return Real::from_bits(0);
    }
    let spread: Real = evaluate(sqrt, sum_of(&distances).over(n));
    if spread.le(Real::from_bits(SPREAD_FLOOR_BITS)) {
        return Real::from_bits(0);
    }
    let p: Real = Real::from_u64(high.len() as u64).over(n);
    let q: Real = Real::from_bits(ONE_BITS).minus(p);
    average_of(&high).minus(average_of(&low)).over(spread).times(evaluate(sqrt, p.times(q)))
}

/// The replay of one window with equal shares.
pub open spec fn replay_of(w: TraceWindow) -> WindowReplay {
    WindowReplay {
        ts_ms: w.ts_ms,
        pi_star: wanted_share(Real { bits: HALF_BITS }, window_pressure(w)),
        prefill_heavy: w.prefill_heavy,
        held_out: w.held_out,
    }
}

/// The replays of all windows.
pub open spec fn replays_of(windows: Seq<TraceWindow>) -> Seq<WindowReplay> {
    windows.map_values(|w: TraceWindow| replay_of(w))
}

/// The replays of the windows kept for evaluation.
pub open spec fn held_out(replays: Seq<WindowReplay>) -> Seq<WindowReplay>
    decreases replays.len(),
{
    if replays.len() == 0 {
        Seq::empty()
    } else {
        let before = held_out(replays.drop_last());
        if replays.last().held_out {
            before.push(replays.last())
        } else {
            before
        }
    }
}

/// The shares in some replays.
pub open spec fn pi_stars(replays: Seq<WindowReplay>) -> Seq<Real> {
    replays.map_values(|r: WindowReplay| r.pi_star)
}

/// The labels of some replays.
pub open spec fn heavy_labels(replays: Seq<WindowReplay>) -> Seq<bool> {
    replays.map_values(|r: WindowReplay| r.prefill_heavy)
}

/// The plain mean, or zero without values.
pub open spec fn average_or_zero(values: Seq<Real>) -> Real {
    if values.len() == 0 {
        zero()
    } else {
        average(values)
    }
}

/// Whether a report is that of a trace: counts, correlation and means over the windows kept for
/// evaluation, and whether they pass.
pub open spec fn reports<F: Fn(Real) -> Real>(
    r: FleetPilotReport,
    windows: Seq<TraceWindow>,
    min_correlation: Real,
    sqrt: F,
) -> bool {
    let all = replays_of(windows);
    let held = held_out(all);
    let heavy = average_or_zero(labelled(pi_stars(held), heavy_labels(held), true));
    let light = average_or_zero(labelled(pi_stars(held), heavy_labels(held), false));
    &&& r.replays@ == all
    &&& r.heldout_windows == held.len()
    &&& r.train_windows == windows.len() - held.len()
    &&& r.heldout_correlation == correlation(pi_stars(held), heavy_labels(held), sqrt)
    &&& r.heldout_mean_pi_heavy == heavy
    &&& r.heldout_mean_pi_light == light
    &&& r.gate_pass == (min_correlation.at_most(r.heldout_correlation) && sum(
        light,
        Real { bits: C_0_05 },
    ).below(heavy) && held.len() > 0)
}

proof fn lemma_held_out_len(replays: Seq<WindowReplay>)
    ensures
        held_out(replays).len() <= replays.len(),
    decreases replays.len(),
{
    if replays.len() > 0 {
        lemma_held_out_len(replays.drop_last());
    }
}

fn average_or_nil(values: &Vec<Real>) -> (r: Real)
    ensures
        r == average_or_zero(values@),
{
    if values.len() == 0 {
        Real::from_bits(0)
    } else {
        average_of(values)
    }
}

/// Replays a trace in shadow and gates on the windows kept for evaluation: the wanted share must
/// follow the prefill-heavy windows and lie clearly higher in them. `sqrt` is the square root.
pub fn replay_fleet_pilot<F: Fn(Real) -> Real + Copy>(
    windows: &[TraceWindow],
    min_correlation: Real,
    sqrt: F,
) -> (r: FleetPilotReport)
    requires
        is_function(sqrt),
    ensures
        reports(r, windows@, min_correlation, sqrt),
{
    let rebalancer: PoolRebalancer = PoolRebalancer::new(RebalancerMode::Shadow, 0);
    let n: usize = windows.len();
    let ghost all = replays_of(windows@);
    let mut replays: Vec<WindowReplay> = Vec::new();
    let mut values: Vec<Real> = Vec::new();
    let mut labels: Vec<bool> = Vec::new();
    let mut train: usize = 0;
    assert(pi_stars(held_out(all.take(0))) =~= Seq::<Real>::empty());
    assert(heavy_labels(held_out(all.take(0))) =~= Seq::<bool>::empty());
    for i in 0..n
        invariant
            n == windows@.len(),
            all == replays_of(windows@),
            rebalancer@.pi == (Real { bits: HALF_BITS }),
            replays@ =~= all.take(i as int),
            values@ == pi_stars(held_out(all.take(i as int))),
            labels@ == heavy_labels(held_out(all.take(i as int))),
            train == i - held_out(all.take(i as int)).len(),
            train <= i,
    {
        assert(all.take(i + 1).drop_last() =~= all.take(i as int));
        let w: TraceWindow = windows[i];
        assert(all[i as int] == replay_of(w));
        let pi_star: Real = rebalancer.shadow_pi_star(&w.pressure());
        replays.push(
            WindowReplay {
                ts_ms: w.ts_ms,
                pi_star,
                prefill_heavy: w.prefill_heavy,
                held_out: w.held_out,
            },
        );
        let ghost held = held_out(all.take(i as int));
        if w.held_out {
            values.push(pi_star);
            labels.push(w.prefill_heavy);
            assert(pi_stars(held.push(all[i as int])) =~= pi_stars(held).push(pi_star));
            assert(heavy_labels(held.push(all[i as int])) =~= heavy_labels(held).push(
                w.prefill_heavy,
            ));
        } else {
            train = train + 1;
        }
    }
    assert(all.take(n as int) =~= all);
    proof {
        lemma_held_out_len(all);
    }
    let heldout: usize = values.len();
    let corr: Real = point_biserial_corr(&values, &labels, sqrt);
    let mean_heavy: Real = average_or_nil(&with_label(&values, &labels, true));
    let mean_light: Real = average_or_nil(&with_label(&values, &labels, false));
    let separation: bool = mean_light.plus(Real::from_bits(C_0_05)).lt(mean_heavy);
    let gate_pass: bool = min_correlation.le(corr) && separation && heldout > 0;
    FleetPilotReport {
        train_windows: train,
        heldout_windows: heldout,
        heldout_correlation: corr,
        heldout_mean_pi_heavy: mean_heavy,
        heldout_mean_pi_light: mean_light,
        gate_pass,
        replays,
    }
}

/// Replays a trace in shadow.
pub fn shadow_pilot_for_trace<F: Fn(Real) -> Real + Copy>(
    windows: &[TraceWindow],
    min_correlation: Real,
    sqrt: F,
) -> (r: FleetPilotReport)
    requires
        is_function(sqrt),
    ensures
        reports(r, windows@, min_correlation, sqrt),
{
    replay_fleet_pilot(windows, min_correlation, sqrt)
}

/// Load of a replay before it is shaped by a window.
#[derive(Debug)]
pub struct SimBaseKnobs {
    pub concurrency: u32,
    pub requests_per_worker: u32,
    pub base_prefill_delay_us: u64,
    pub base_decode_delay_us: u64,
    pub long_prompt_tokens: u64,
    pub long_prompt_tokens_heavy: u64,
    pub request_style: String,
}

/// Load of one window.
#[derive(Debug)]
pub struct WindowKnobs {
    pub prefill_fraction: Real,
    pub concurrency: u32,
    pub requests_per_worker: u32,
    pub request_style: String,
    pub long_prompt_tokens: u64,
    pub prefill_delay_us: u64,
    pub decode_delay_us: u64,
    pub delay_window_mult: Real,
}

/// A constant given by its bit pattern.
pub open spec fn c(bits: u64) -> Real {
    Real { bits }
}

/// The share of prefill requests in a window.
pub open spec fn prefill_fraction(w: TraceWindow) -> Real {
    if w.prefill_heavy {
        clamped(
            sum(c(C_0_70), product(w.q_prefill, c(C_0_25))),
            c(C_0_55),
            c(C_0_95),
        )
    } else {
        clamped(
            sum(c(C_0_10), product(w.q_prefill, c(C_0_35))),
            c(C_0_05),
            c(C_0_45),
        )
    }
}

/// Concurrency scaled by the load of a window, between 4 and 64.
pub open spec fn scaled_concurrency(base: u32, w: TraceWindow) -> u32 {
    let load = clamped(
        sum(sum(c(C_0_45), w.q_prefill), w.q_decode),
        c(C_0_50),
        c(C_2_00),
    );
    let n = rounded(product(of_nat(base as nat), load));
    if n < 4 {
        4
    } else if n > 64 {
        64
    } else {
        n as u32
    }
}

/// A delay scaled by queue pressure, at least one microsecond.
pub open spec fn scaled_delay(base_us: u64, pressure: Real) -> u64 {
    truncated(
        larger(
            product(of_nat(base_us as nat), sum(c(C_0_40), product(pressure, c(C_1_60)))),
            one(),
        ),
    )
}

/// The factor on all delays of a window.
pub open spec fn delay_multiplier(w: TraceWindow) -> Real {
    clamped(
        sum(sum(c(C_0_50), w.q_prefill), product(w.q_decode, c(C_0_50))),
        c(C_0_50),
        c(C_2_50),
    )
}

fn scale_delay(base_us: u64, pressure: Real) -> (r: u64)
    ensures
        r == scaled_delay(base_us, pressure),
{
    Real::from_u64(base_us).times(
        Real::from_bits(C_0_40).plus(pressure.times(Real::from_bits(C_1_60))),
    ).max_with(Real::from_bits(ONE_BITS)).to_u64()
}

/// Plans the load of a window.
pub fn window_knobs(w: &TraceWindow, base: &SimBaseKnobs) -> (r: WindowKnobs)
    ensures
        r.prefill_fraction == prefill_fraction(*w),
        r.concurrency == scaled_concurrency(base.concurrency, *w),
        r.requests_per_worker == base.requests_per_worker,
        r.request_style@ == base.request_style@,
        r.long_prompt_tokens == if w.prefill_heavy {
            base.long_prompt_tokens_heavy
        } else {
            base.long_prompt_tokens
        },
        r.prefill_delay_us == scaled_delay(base.base_prefill_delay_us, w.q_prefill),
        r.decode_delay_us == scaled_delay(base.base_decode_delay_us, w.q_decode),
        r.delay_window_mult == delay_multiplier(*w),
        4 <= r.concurrency <= 64,
{
    proof {
        lemma_value_order(c(C_0_95), c(C_0_55));
        lemma_value_order(c(C_0_45), c(C_0_05));
        lemma_value_order(c(C_2_00), c(C_0_50));
        lemma_value_order(c(C_2_50), c(C_0_50));
    }
    let prefill_fraction: Real = if w.prefill_heavy {
        Real::from_bits(C_0_70).plus(w.q_prefill.times(Real::from_bits(C_0_25))).clamp_to(
            Real::from_bits(C_0_55),
            Real::from_bits(C_0_95),
        )
    } else {
        Real::from_bits(C_0_10).plus(w.q_prefill.times(Real::from_bits(C_0_35))).clamp_to(
            Real::from_bits(C_0_05),
            Real::from_bits(C_0_45),
        )
    };
    let load: Real = Real::from_bits(C_0_45).plus(w.q_prefill).plus(w.q_decode).clamp_to(
        Real::from_bits(C_0_50),
        Real::from_bits(C_2_00),
    );
    let n: u64 = Real::from_u64(base.concurrency as u64).times(load).round_to_u64();
    let concurrency: u32 = if n < 4 {
        4
    } else if n > 64 {
        64
    } else {
        n as u32
    };
    let delay_window_mult: Real = Real::from_bits(C_0_50).plus(w.q_prefill).plus(
        w.q_decode.times(Real::from_bits(C_0_50)),
    ).clamp_to(Real::from_bits(C_0_50), Real::from_bits(C_2_50));
    WindowKnobs {
        prefill_fraction,
        concurrency,
        requests_per_worker: base.requests_per_worker,
        request_style: base.request_style.clone(),
        long_prompt_tokens: if w.prefill_heavy {
            base.long_prompt_tokens_heavy
        } else {
            base.long_prompt_tokens
        },
        prefill_delay_us: scale_delay(base.base_prefill_delay_us, w.q_prefill),
        decode_delay_us: scale_delay(base.base_decode_delay_us, w.q_decode),
        delay_window_mult,
    }
}

/// The delay of one tier of backends: later tiers are slower.
pub fn tier_delay_us(tier_index: u32, tier_count: u32, base_us: u64, window_mult: Real) -> (r: u64)
    ensures
        r == truncated(
            larger(
                product(
                    product(of_nat(base_us as nat), window_mult),
                    sum(
                        one(),
                        product(
                            quotient(
                                of_nat(tier_index as nat),
                                of_nat(
                                    if tier_count == 0 {
                                        1
                                    } else {
                                        tier_count as nat
                                    },
                                ),
                            ),
                            c(C_0_60),
                        ),
                    ),
                ),
                one(),
            ),
        ),
{
    let tiers: u64 = if tier_count == 0 {
        1
    } else {
        tier_count as u64
    };
    let skew: Real = Real::from_bits(ONE_BITS).plus(
        Real::from_u64(tier_index as u64).over(Real::from_u64(tiers)).times(
            Real::from_bits(C_0_60),
        ),
    );
    Real::from_u64(base_us).times(window_mult).times(skew).max_with(
        Real::from_bits(ONE_BITS),
    ).to_u64()
}

/// `x` held within 64 bits.
pub open spec fn saturated(x: int) -> int {
    if x > u64::MAX {
        u64::MAX as int
    } else if x < 0 {
        0
    } else {
        x
    }
}

/// The step of the generator that spreads delays.
pub open spec fn scatter(salt: u64) -> int {
    (salt * 1_103_515_245 + 12345) % 0x1_0000_0000_0000_0000
}

/// A delay moved by at most `jitter_us` either way, the same for the same salt.
pub open spec fn jittered(delay_us: u64, jitter_us: u64, salt: u64) -> int {
    if jitter_us == 0 {
        delay_us as int
    } else {
        saturated(
            saturated(
                delay_us + scatter(salt) % saturated(saturated(jitter_us * 2) + 1),
            ) - jitter_us,
        )
    }
}

/// Moves a delay by at most `jitter_us` either way, the same for the same salt.
pub fn jitter_delay_us(delay_us: u64, jitter_us: u64, salt: u64) -> (r: u64)
    ensures
        r == jittered(delay_us, jitter_us, salt),
{
    if jitter_us == 0 {
        return delay_us;
    }
    let span: u64 = crate::kv::saturating_mul_u64(jitter_us, 2).saturating_add(1);
    assert(span == saturated(saturated(jitter_us * 2) + 1));
    let wide: u128 = salt as u128 * 1_103_515_245 + 12345;
    let step: u64 = (wide % 0x1_0000_0000_0000_0000) as u64;
    assert(step == scatter(salt));
    let delta: u64 = step % span;
    delay_us.saturating_add(delta).saturating_sub(jitter_us)
}

/// Jitter never moves a delay by more than it may, and never out of 64 bits.
pub proof fn jitter_is_bounded(delay_us: u64, jitter_us: u64, salt: u64)
    ensures
        jittered(delay_us, jitter_us, salt) <= saturated(delay_us + jitter_us),
        jittered(delay_us, jitter_us, salt) >= saturated(delay_us - jitter_us),
{
    if jitter_us > 0 {
        let span = saturated(saturated(jitter_us * 2) + 1);
        assert(0 <= scatter(salt) % span < span);
    }
}

/// What was measured in one window.
#[derive(Debug, Clone, Copy, PartialEq, Eq, Structural)]
pub struct FleetWindowResult {
    pub ts_ms: u64,
    pub prefill_heavy: bool,
    pub held_out: bool,
    pub ok: u64,
    /// Responses other than success.
    pub errors: u64,
    /// Requests shed in good order.
    pub errors_graceful: u64,
    /// Failures of any other kind.
    pub errors_hard: u64,
    pub p99_us: u64,
    pub dataplane_pi: Real,
    pub pi_star: Real,
}

/// The verdict on a live replay.
#[derive(Debug)]
pub struct FleetSimReport {
    pub windows: usize,
    pub heldout_correlation: Real,
    pub live_pi_correlation: Real,
    pub gate_pass: bool,
    pub window_results: Vec<FleetWindowResult>,
}

/// Requests in the windows that are prefill-heavy, or in those that are not.
pub open spec fn requests_in(live: Seq<FleetWindowResult>, heavy: bool) -> nat
    decreases live.len(),
{
    if live.len() == 0 {
        0
    } else {
        requests_in(live.drop_last(), heavy) + if live.last().prefill_heavy == heavy {
            (live.last().ok + live.last().errors) as nat
        } else {
            0
        }
    }
}

/// Requests shed in good order in prefill-heavy windows.
pub open spec fn shed_in_heavy(live: Seq<FleetWindowResult>) -> nat
    decreases live.len(),
{
    if live.len() == 0 {
        0
    } else {
        shed_in_heavy(live.drop_last()) + if live.last().prefill_heavy {
            live.last().errors_graceful as nat
        } else {
            0
        }
    }
}

/// The shares served in the windows kept for evaluation.
pub open spec fn live_shares(live: Seq<FleetWindowResult>) -> Seq<Real>
    decreases live.len(),
{
    if live.len() == 0 {
        Seq::empty()
    } else {
        let before = live_shares(live.drop_last());
        if live.last().held_out {
            before.push(live.last().dataplane_pi)
        } else {
            before
        }
    }
}

/// The labels of the windows kept for evaluation.
pub open spec fn live_labels(live: Seq<FleetWindowResult>) -> Seq<bool>
    decreases live.len(),
{
    if live.len() == 0 {
        Seq::empty()
    } else {
        let before = live_labels(live.drop_last());
        if live.last().held_out {
            before.push(live.last().prefill_heavy)
        } else {
            before
        }
    }
}

/// The share of requests shed in prefill-heavy windows.
pub open spec fn heavy_shed_rate(live: Seq<FleetWindowResult>) -> Real {
    if requests_in(live, true) == 0 {
        zero()
    } else {
        quotient(of_nat(shed_in_heavy(live)), of_nat(requests_in(live, true)))
    }
}

/// Whether a replay passes: the shadow replay did, prefill-heavy windows carried more load, the live
/// share followed them closely enough, and not too much was shed.
pub open spec fn sim_passes<F: Fn(Real) -> Real>(
    pilot: FleetPilotReport,
    live: Seq<FleetWindowResult>,
    min_shadow_correlation: Real,
    min_live_correlation: Option<Real>,
    max_heavy_graceful_rate: Option<Real>,
    sqrt: F,
) -> bool {
    &&& pilot.gate_pass
    &&& min_shadow_correlation.at_most(pilot.heldout_correlation)
    &&& requests_in(live, true) > requests_in(live, false)
    &&& (min_live_correlation matches Some(min) ==> min.at_most(
        correlation(live_shares(live), live_labels(live), sqrt),
    ))
    &&& (max_heavy_graceful_rate matches Some(max) ==> heavy_shed_rate(live).at_most(max))
}

proof fn lemma_requests_grow(live: Seq<FleetWindowResult>, n: int)
    requires
        0 <= n <= live.len(),
    ensures
        requests_in(live.take(n), true) <= requests_in(live, true),
        requests_in(live.take(n), false) <= requests_in(live, false),
        shed_in_heavy(live.take(n)) <= shed_in_heavy(live),
    decreases live.len(),
{
    if n == live.len() {
        assert(live.take(n) =~= live);
    } else {
        lemma_requests_grow(live.drop_last(), n);
        assert(live.drop_last().take(n) =~= live.take(n));
    }
}

/// Judges a live replay; `sqrt` is the square root.
pub fn eval_fleet_sim_gate<F: Fn(Real) -> Real + Copy>(
    pilot: &FleetPilotReport,
    live: &[FleetWindowResult],
    min_shadow_correlation: Real,
    min_live_correlation: Option<Real>,
    max_heavy_graceful_rate: Option<Real>,
    sqrt: F,
) -> (r: FleetSimReport)
    requires
        is_function(sqrt),
        requests_in(live@, true) <= u64::MAX,
        requests_in(live@, false) <= u64::MAX,
        shed_in_heavy(live@) <= u64::MAX,
    ensures
        r.windows == live@.len(),
        r.heldout_correlation == pilot.heldout_correlation,
        r.live_pi_correlation == correlation(live_shares(live@), live_labels(live@), sqrt),
        r.window_results@ == live@,
        r.gate_pass == sim_passes(
            *pilot,
            live@,
            min_shadow_correlation,
            min_live_correlation,
            max_heavy_graceful_rate,
            sqrt,
        ),
{
    let n: usize = live.len();
    let mut values: Vec<Real> = Vec::new();
    let mut labels: Vec<bool> = Vec::new();
    let mut results: Vec<FleetWindowResult> = Vec::new();
    let mut heavy_total: u64 = 0;
    let mut light_total: u64 = 0;
    let mut heavy_shed: u64 = 0;
    for i in 0..n
        invariant
            n == live@.len(),
            requests_in(live@, true) <= u64::MAX,
            requests_in(live@, false) <= u64::MAX,
            shed_in_heavy(live@) <= u64::MAX,
            values@ == live_shares(live@.take(i as int)),
            labels@ == live_labels(live@.take(i as int)),
            results@ =~= live@.take(i as int),
            heavy_total == requests_in(live@.take(i as int), true),
            light_total == requests_in(live@.take(i as int), false),
            heavy_shed == shed_in_heavy(live@.take(i as int)),
    {
        proof {
            assert(live@.take(i + 1).drop_last() =~= live@.take(i as int));
            lemma_requests_grow(live@, i + 1);
        }
        let w: FleetWindowResult = live[i];
        if w.held_out {
            values.push(w.dataplane_pi);
            labels.push(w.prefill_heavy);
        }
        if w.prefill_heavy {
            heavy_total = heavy_total + (w.ok + w.errors);
            heavy_shed = heavy_shed + w.errors_graceful;
        } else {
            light_total = light_total + (w.ok + w.errors);
        }
        results.push(w);
    }
    assert(live@.take(n as int) =~= live@);
    let live_corr: Real = point_biserial_corr(&values, &labels, sqrt);
    let shed_rate: Real = if heavy_total > 0 {
        Real::from_u64(heavy_shed).over(Real::from_u64(heavy_total))
    } else {
        Real::from_bits(0)
    };
    let shadow_pass: bool = pilot.gate_pass && min_shadow_correlation.le(
        pilot.heldout_correlation,
    );
    let live_pass: bool = match min_live_correlation {
        Some(min) => min.le(live_corr),
        None => true,
    };
    let shed_pass: bool = match max_heavy_graceful_rate {
        Some(max) => shed_rate.le(max),
        None => true,
    };
    FleetSimReport {
        windows: n,
        heldout_correlation: pilot.heldout_correlation,
        live_pi_correlation: live_corr,
        gate_pass: shadow_pass && heavy_total > light_total && live_pass && shed_pass,
        window_results: results,
    }
}

/// Whether a trimmed line of a trace holds a window: it is not empty and no comment.
pub open spec fn is_row(line: Seq<char>) -> bool {
    line.len() > 0 && line[0] != '#'
}

/// The trimmed rows of a trace.
pub open spec fn rows(lines: Seq<Seq<char>>) -> Seq<Seq<char>>
    decreases lines.len(),
{
    if lines.len() == 0 {
        Seq::empty()
    } else {
        let before = rows(lines.drop_last());
        let line = trim(lines.last());
        if is_row(line) {
            before.push(line)
        } else {
            before
        }
    }
}

/// The rows of a trace file, one window each.
pub fn trace_rows<'a>(raw: &'a str) -> (r: Vec<&'a str>)
    ensures
        views(r@) == rows(split(raw@, '\n')),
{
    let lines: Vec<&'a str> = split_text(raw, '\n');
    let ghost all = views(lines@);
    let n: usize = lines.len();
    let mut out: Vec<&'a str> = Vec::new();
    assert(views(out@) =~= rows(all.take(0)));
    for i in 0..n
        invariant
            n == lines@.len(),
            all == views(lines@),
            views(out@) == rows(all.take(i as int)),
    {
        let ghost before = views(out@);
        assert(all.take(i + 1).drop_last() =~= all.take(i as int));
        assert(all.take(i + 1).last() == lines@[i as int]@);
        let line: &'a str = trim_text(lines[i]);
        if !line.is_empty() {
            if line.get_char(0) != '#' {
                out.push(line);
                assert(views(out@) =~= before.push(line@));
            }
        }
    }
    assert(all.take(n as int) =~= all);
    out
}

} // verus!
