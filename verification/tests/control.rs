use demiurge::binary64::Real;
use demiurge::factors::ClampEvents;
use demiurge::fleet::{
    eval_fleet_sim_gate, jitter_delay_us, point_biserial_corr, replay_fleet_pilot,
    shadow_pilot_for_trace, tier_delay_us, trace_rows, window_knobs, FleetPilotReport,
    FleetWindowResult, SimBaseKnobs, TraceWindow,
};
use demiurge::graduation::{
    eval_corrector_graduation, is_clamp_saturated, GraduationController, GraduationGate,
    GraduationStage,
};
use demiurge::migration::{
    evaluate_cutover, MigrationBudget, MigrationDecision, MigrationStallLog, MigrationStallSample,
    QuiesceModel,
};
use demiurge::pairing::{
    greedy_pair, oracle_pair, pairing_regret, pairing_regret_targets, select_decode,
    select_prefill, PairTarget, ScoredBackend,
};
use demiurge::params::{MIGRATION_ITL_BUDGET_FRACTION_EPS_BITS, ROUTING_TRANSFER_PENALTY_BITS};
use demiurge::rebalancer::{
    export_pool_pressure, PoolGossip, PoolPressure, PoolRebalancer, RebalancerMode,
};
use demiurge::shadow::{
    delta_within_envelope, eval_goodput_improvement, eval_transfer_ratio_median,
    train_bounded_delta, CorrectorShadowLog, CorrectorShadowSample, RdmaCostShadowLog,
    RdmaCostShadowSample,
};

fn r(x: f64) -> Real {
    Real::from_bits(x.to_bits())
}

fn f(x: Real) -> f64 {
    f64::from_bits(x.to_bits())
}

fn ln(x: Real) -> Real {
    r(f(x).ln())
}

fn exp(x: Real) -> Real {
    r(f(x).exp())
}

fn sqrt(x: Real) -> Real {
    r(f(x).sqrt())
}

fn gate() -> GraduationGate {
    GraduationGate { max_violations: 0, min_goodput_improvement: r(0.01) }
}

fn sample(analytic_ln: f64, observed_us: u64) -> CorrectorShadowSample {
    CorrectorShadowSample {
        prompt_tokens: 512,
        analytic_ln: r(analytic_ln),
        observed_us,
        pool_pi: r(0.5),
        backend_label: "dc0".to_string(),
    }
}

fn healthy_samples() -> Vec<CorrectorShadowSample> {
    vec![sample(0.0, 1_050_000), sample(0.0, 1_040_000), sample(0.0, 1_060_000)]
}

fn saturating_samples() -> Vec<CorrectorShadowSample> {
    vec![sample(0.0, 10_000_000), sample(0.0, 10_200_000), sample(0.0, 9_800_000)]
}

fn step(ctrl: &mut GraduationController, s: &[CorrectorShadowSample], violations: u64) -> (GraduationStage, bool) {
    let out = ctrl.evaluate(s, violations, &gate(), ln, exp, &mut ClampEvents::new());
    (out.stage, out.rolled_back)
}

#[test]
fn corrector_graduation_requires_zero_violations_and_goodput() {
    let g = gate();
    assert!(eval_corrector_graduation(0, r(0.02), &g));
    assert!(!eval_corrector_graduation(1, r(0.02), &g));
    assert!(!eval_corrector_graduation(0, r(0.0), &g));
}

#[test]
fn is_clamp_saturated_covers_boundary_and_invalid_values() {
    assert!(!is_clamp_saturated(r(1.0)));
    assert!(!is_clamp_saturated(r(0.81)));
    assert!(!is_clamp_saturated(r(1.19)));
    assert!(is_clamp_saturated(r(0.8)));
    assert!(is_clamp_saturated(r(1.2)));
    assert!(is_clamp_saturated(r(5.0)));
    assert!(is_clamp_saturated(r(f64::NAN)));
    assert!(is_clamp_saturated(r(f64::INFINITY)));
}

#[test]
fn healthy_window_promotes_shadow_to_canary() {
    let mut ctrl = GraduationController::new();
    assert_eq!(ctrl.stage(), GraduationStage::Shadow);
    assert_eq!(step(&mut ctrl, &healthy_samples(), 0), (GraduationStage::Canary, false));
}

#[test]
fn two_healthy_windows_reach_production() {
    let mut ctrl = GraduationController::new();
    step(&mut ctrl, &healthy_samples(), 0);
    assert_eq!(step(&mut ctrl, &healthy_samples(), 0), (GraduationStage::Production, false));
}

#[test]
fn production_holds_under_continued_health() {
    let mut ctrl = GraduationController::new();
    step(&mut ctrl, &healthy_samples(), 0);
    step(&mut ctrl, &healthy_samples(), 0);
    assert_eq!(ctrl.stage(), GraduationStage::Production);
    assert_eq!(step(&mut ctrl, &healthy_samples(), 0), (GraduationStage::Production, false));
}

#[test]
fn violation_during_canary_rolls_back_to_shadow() {
    let mut ctrl = GraduationController::new();
    step(&mut ctrl, &healthy_samples(), 0);
    assert_eq!(ctrl.stage(), GraduationStage::Canary);
    assert_eq!(step(&mut ctrl, &healthy_samples(), 1), (GraduationStage::Shadow, true));
}

#[test]
fn violation_during_production_rolls_back_to_shadow() {
    let mut ctrl = GraduationController::new();
    step(&mut ctrl, &healthy_samples(), 0);
    step(&mut ctrl, &healthy_samples(), 0);
    assert_eq!(ctrl.stage(), GraduationStage::Production);
    assert_eq!(step(&mut ctrl, &healthy_samples(), 1), (GraduationStage::Shadow, true));
}

#[test]
fn saturated_delta_blocks_promotion_even_with_zero_violations() {
    let mut ctrl = GraduationController::new();
    let (stage, rolled_back) = step(&mut ctrl, &saturating_samples(), 0);
    assert_eq!(stage, GraduationStage::Shadow);
    assert!(!rolled_back, "never promoted, so this is a hold, not a rollback");
}

#[test]
fn saturation_in_canary_rolls_back_even_though_goodput_looks_fine() {
    let mut ctrl = GraduationController::new();
    step(&mut ctrl, &healthy_samples(), 0);
    assert_eq!(ctrl.stage(), GraduationStage::Canary);
    assert_eq!(step(&mut ctrl, &saturating_samples(), 0), (GraduationStage::Shadow, true));
}

#[test]
fn hold_at_shadow_is_not_reported_as_rollback() {
    let mut ctrl = GraduationController::new();
    assert_eq!(step(&mut ctrl, &[], 0), (GraduationStage::Shadow, false));
}

#[test]
fn train_delta_clamped() {
    let samples = vec![sample(0.0, 2_000_000), sample(0.0, 2_100_000), sample(0.0, 1_900_000)];
    let delta = train_bounded_delta(&samples, exp, &mut ClampEvents::new());
    assert!(delta_within_envelope(delta));
    assert_eq!(f(delta), 1.2);
    assert_eq!(f(train_bounded_delta(&healthy_samples(), exp, &mut ClampEvents::new())), 1.05);
    assert_eq!(f(train_bounded_delta(&[sample(f64::NAN, 5), sample(0.0, 0)], exp, &mut ClampEvents::new())), 1.0);
    assert!(!delta_within_envelope(r(1.3)));
}

#[test]
fn eval_goodput_identity_is_zero_or_small() {
    let samples = vec![sample(-1.0, 368_000), sample(-0.5, 606_000)];
    let imp = f(eval_goodput_improvement(&samples, r(1.0), ln, &mut ClampEvents::new()));
    assert!((0.0..=1.0).contains(&imp));
    assert_eq!(imp, 0.0);
    assert_eq!(f(eval_goodput_improvement(&healthy_samples(), r(1.05), ln, &mut ClampEvents::new())), 1.0);
    assert_eq!(f(eval_goodput_improvement(&[], r(1.05), ln, &mut ClampEvents::new())), 0.0);
}

fn window(ts: u64, q: [f64; 6], prefill_heavy: bool, held_out: bool) -> TraceWindow {
    TraceWindow {
        ts_ms: ts,
        q_prefill: r(q[0]),
        q_decode: r(q[1]),
        kv_decode: r(q[2]),
        slo_prefill: r(q[3]),
        slo_decode: r(q[4]),
        fp_share: r(q[5]),
        prefill_heavy,
        held_out,
    }
}

fn heavy(ts: u64, held_out: bool) -> TraceWindow {
    window(ts, [0.92, 0.18, 0.25, 0.15, 0.05, 0.12], true, held_out)
}

fn light(ts: u64, held_out: bool) -> TraceWindow {
    window(ts, [0.18, 0.32, 0.12, 0.0, 0.05, 0.82], false, held_out)
}

fn trace() -> Vec<TraceWindow> {
    vec![
        heavy(0, false),
        light(60_000, false),
        heavy(120_000, false),
        light(180_000, true),
        heavy(240_000, true),
        light(300_000, true),
        heavy(360_000, true),
        light(420_000, true),
    ]
}

#[test]
fn fleet_pilot_heldout_correlates() {
    let report = replay_fleet_pilot(&trace(), r(0.45), sqrt);
    assert!(f(report.heldout_correlation) > 0.45);
    assert!(f(report.heldout_mean_pi_heavy) > f(report.heldout_mean_pi_light));
    assert!(report.gate_pass);
    assert_eq!((report.train_windows, report.heldout_windows), (3, 5));
    assert_eq!(report.replays.len(), 8);
}

#[test]
fn live_shares_that_follow_the_trace_pass() {
    let windows = trace();
    let pilot = shadow_pilot_for_trace(&windows, r(0.45), sqrt);
    assert!(pilot.gate_pass);
    let live: Vec<FleetWindowResult> = windows
        .iter()
        .enumerate()
        .map(|(i, w)| FleetWindowResult {
            ts_ms: w.ts_ms,
            prefill_heavy: w.prefill_heavy,
            held_out: w.held_out,
            ok: if w.prefill_heavy { 20 } else { 5 },
            errors: 0,
            errors_graceful: 0,
            errors_hard: 0,
            p99_us: 1000,
            dataplane_pi: pilot.replays[i].pi_star,
            pi_star: pilot.replays[i].pi_star,
        })
        .collect();
    let report = eval_fleet_sim_gate(&pilot, &live, r(0.45), Some(r(0.9)), None, sqrt);
    assert!(report.gate_pass);
    assert_eq!(report.windows, 8);
    assert_eq!(report.window_results, live);
    assert_eq!(f(report.live_pi_correlation), f(pilot.heldout_correlation));
    let strict = eval_fleet_sim_gate(&pilot, &live, r(1.5), None, None, sqrt);
    assert!(!strict.gate_pass);
}

#[test]
fn correlation_matches_the_formula() {
    let values = vec![r(0.9), r(0.1), r(0.7), r(0.2)];
    let labels = vec![true, false, true, false];
    let got = f(point_biserial_corr(&values, &labels, sqrt));
    let mean = (0.9 + 0.1 + 0.7 + 0.2) / 4.0;
    let sq: f64 = [0.9, 0.1, 0.7, 0.2].iter().fold(0.0, |a, v: &f64| a + (v - mean) * (v - mean));
    let std = (sq / 4.0f64).sqrt();
    let want = ((0.9 + 0.7) / 2.0 - (0.1 + 0.2) / 2.0) / std * (0.5f64 * 0.5).sqrt();
    assert_eq!(got, want);
    assert_eq!(f(point_biserial_corr(&values, &vec![true; 4], sqrt)), 0.0);
    assert_eq!(f(point_biserial_corr(&vec![r(0.5); 4], &labels, sqrt)), 0.0);
    assert_eq!(f(point_biserial_corr(&vec![r(0.5)], &vec![true], sqrt)), 0.0);
}

fn knobs() -> SimBaseKnobs {
    SimBaseKnobs {
        concurrency: 16,
        requests_per_worker: 20,
        base_prefill_delay_us: 100,
        base_decode_delay_us: 50,
        long_prompt_tokens: 512,
        long_prompt_tokens_heavy: 2048,
        request_style: "mixed_tokens".to_string(),
    }
}

#[test]
fn window_knobs_prefill_heavy_raises_fraction() {
    let base = knobs();
    let heavy = window(0, [0.9, 0.2, 0.25, 0.1, 0.0, 0.1], true, false);
    let light = window(0, [0.2, 0.35, 0.1, 0.1, 0.0, 0.85], false, false);
    let h = window_knobs(&heavy, &base);
    let l = window_knobs(&light, &base);
    assert!(f(h.prefill_fraction) > f(l.prefill_fraction));
    assert_eq!(h.request_style, "mixed_tokens");
    assert_eq!(h.long_prompt_tokens, 2048);
    assert_eq!(f(h.prefill_fraction), 0.70 + 0.9 * 0.25);
    assert_eq!(h.concurrency, (16.0f64 * (0.45 + 0.9 + 0.2)).round() as u32);
    assert_eq!(h.prefill_delay_us, (100.0f64 * (0.4 + 0.9 * 1.6)) as u64);
    assert_eq!(l.decode_delay_us, (50.0f64 * (0.4 + 0.35 * 1.6)) as u64);
    assert_eq!(f(l.delay_window_mult), 0.5 + 0.2 + 0.35 * 0.5);
    assert_eq!(l.long_prompt_tokens, 512);
}

#[test]
fn tier_delay_increases_with_index() {
    let d0 = tier_delay_us(0, 4, 100, r(1.0));
    let d3 = tier_delay_us(3, 4, 100, r(1.0));
    assert!(d3 > d0);
    assert_eq!((d0, d3), (100, (100.0f64 * (1.0 + 3.0 / 4.0 * 0.6)) as u64));
    assert_eq!(tier_delay_us(0, 0, 0, r(1.0)), 1);
}

#[test]
fn jitter_is_bounded_and_repeatable() {
    assert_eq!(jitter_delay_us(100, 0, 7), 100);
    for salt in 0..500u64 {
        let d = jitter_delay_us(1000, 50, salt.wrapping_mul(0x9E3779B97F4A7C15));
        assert!((950..=1050).contains(&d));
        assert_eq!(d, jitter_delay_us(1000, 50, salt.wrapping_mul(0x9E3779B97F4A7C15)));
    }
    let salt = 42u64;
    let want = 10 + salt.wrapping_mul(1_103_515_245).wrapping_add(12345) % 7 - 3;
    assert_eq!(jitter_delay_us(10, 3, salt), want);
    assert_eq!(jitter_delay_us(0, u64::MAX, 0), 0);
}

#[test]
fn heavy_window_shed_gate() {
    let pilot = FleetPilotReport {
        train_windows: 0,
        heldout_windows: 2,
        heldout_correlation: r(0.5),
        heldout_mean_pi_heavy: r(0.8),
        heldout_mean_pi_light: r(0.2),
        gate_pass: true,
        replays: vec![],
    };
    let live = vec![
        FleetWindowResult {
            ts_ms: 0,
            prefill_heavy: true,
            held_out: true,
            ok: 18,
            errors: 2,
            errors_graceful: 2,
            errors_hard: 0,
            p99_us: 100,
            dataplane_pi: r(0.8),
            pi_star: r(0.8),
        },
        FleetWindowResult {
            ts_ms: 1,
            prefill_heavy: false,
            held_out: true,
            ok: 10,
            errors: 0,
            errors_graceful: 0,
            errors_hard: 0,
            p99_us: 50,
            dataplane_pi: r(0.2),
            pi_star: r(0.2),
        },
    ];
    let pass = eval_fleet_sim_gate(&pilot, &live, r(0.45), None, Some(r(0.25)), sqrt);
    assert!(pass.gate_pass);
    let fail = eval_fleet_sim_gate(&pilot, &live, r(0.45), None, Some(r(0.09)), sqrt);
    assert!(!fail.gate_pass);
}

#[test]
fn trace_rows_skip_comments_and_blanks() {
    let raw = "# head\r\n\r\n  {\"ts_ms\":1}\r\n\t# more\n{\"ts_ms\":2}";
    assert_eq!(trace_rows(raw), vec!["{\"ts_ms\":1}", "{\"ts_ms\":2}"]);
    assert!(trace_rows("").is_empty());
}

#[test]
fn migration_aborts_when_over_budget() {
    let budget = MigrationBudget { itl_us: 1_000, epsilon: r(0.05) };
    assert_eq!(evaluate_cutover(40, &budget), MigrationDecision::Commit);
    assert_eq!(evaluate_cutover(60, &budget), MigrationDecision::Abort);
    assert_eq!(evaluate_cutover(50, &budget), MigrationDecision::Commit);
    let negative = MigrationBudget { itl_us: 1_000, epsilon: r(-1.0) };
    assert_eq!(evaluate_cutover(1, &negative), MigrationDecision::Abort);
    assert_eq!(evaluate_cutover(0, &negative), MigrationDecision::Commit);
}

#[test]
fn budget_uses_canonical_epsilon() {
    let eps = f(Real::from_bits(MIGRATION_ITL_BUDGET_FRACTION_EPS_BITS));
    let budget = MigrationBudget::for_itl(1_000);
    assert_eq!(f(budget.epsilon), eps);
    assert_eq!(budget.limit_us(), (eps * 1_000.0) as u64);
}

#[test]
fn quiesce_one_step_accumulates_estimated_stall() {
    let model = QuiesceModel {
        total_bytes: 1_000_000,
        chunk_bytes: 64 * 1024,
        per_chunk_us: 50,
        dirty_fraction: r(0.25),
    };
    let out = model.quiesce(32);
    assert!(out.passes >= 1);
    assert!(out.residual_bytes <= model.chunk_bytes);
    assert!(out.est_stall_us <= model.copy_us(model.total_bytes));
    assert_eq!((out.passes, out.residual_bytes, out.est_stall_us), (2, 62_500, 50));

    let dirtier = QuiesceModel { dirty_fraction: r(0.75), ..model };
    let out_dirty = dirtier.quiesce(32);
    assert!(out_dirty.passes >= out.passes);

    let clean = QuiesceModel { dirty_fraction: r(0.0), ..model };
    assert_eq!(clean.quiesce(32).passes, 1);
    assert_eq!(clean.quiesce(32).residual_bytes, 0);
    assert_eq!(model.quiesce(0).est_stall_us, model.copy_us(1_000_000));
}

#[test]
fn record_migration_stall_tracks_estimated_vs_measured() {
    let mut log = MigrationStallLog::new(8);
    assert!(log.is_empty());
    assert_eq!(f(log.mean_abs_error_us()), 0.0);
    log.record(MigrationStallSample {
        estimated_us: 100,
        measured_us: 120,
        decision: MigrationDecision::Commit,
    });
    log.record(MigrationStallSample {
        estimated_us: 200,
        measured_us: 180,
        decision: MigrationDecision::Abort,
    });
    assert_eq!(log.len(), 2);
    assert!((f(log.mean_abs_error_us()) - 20.0).abs() < 1e-9);

    for i in 0..20 {
        log.record(MigrationStallSample {
            estimated_us: i,
            measured_us: i,
            decision: MigrationDecision::Commit,
        });
    }
    assert_eq!(log.len(), 8);
    assert_eq!(log.samples()[0].estimated_us, 12);
}

fn scored(label: &str, cost: f64, penalty: f64) -> PairTarget {
    ScoredBackend::new(label, r(cost)).pair_target(None, None, r(penalty), ln)
}

#[test]
fn greedy_pairing_prefill_first() {
    let penalty = f(Real::from_bits(ROUTING_TRANSFER_PENALTY_BITS));
    let pf = vec![scored("pf0", 0.01, penalty), scored("pf1", 0.05, penalty)];
    let dc = vec![scored("dc0", 0.02, penalty), scored("dc1", 0.03, penalty)];
    let (g_pf, _) = greedy_pair(&pf, &dc, &mut ClampEvents::new());
    assert_eq!(pf[g_pf].label, "pf0");
}

#[test]
fn pairing_regret_within_budget() {
    let pf = vec![scored("pf0", 0.01, 1.1), scored("pf1", 0.02, 1.1)];
    let dc = vec![scored("dc0", 0.02, 1.1), scored("dc1", 0.025, 1.1)];
    let regret = f(pairing_regret_targets(&pf, &dc, exp, &mut ClampEvents::new()));
    assert!((0.0..0.15).contains(&regret));
    assert_eq!(f(pairing_regret_targets(&pf, &vec![], exp, &mut ClampEvents::new())), 0.0);
}

#[test]
fn oracle_can_beat_the_greedy_pair() {
    // Prefill is a little cheaper on "a", but decode is on "b" and far from "a".
    let pf = vec![scored("a", 0.010, 4.0), scored("b", 0.011, 4.0)];
    let dc = vec![scored("b", 0.020, 4.0)];
    assert_eq!(greedy_pair(&pf, &dc, &mut ClampEvents::new()), (0, 0));
    assert_eq!(oracle_pair(&pf, &dc, &mut ClampEvents::new()), (1, 0));
    let regret = f(pairing_regret_targets(&pf, &dc, exp, &mut ClampEvents::new()));
    assert!((regret - (0.010 * 4.0 / 0.011 - 1.0)).abs() < 1e-12);
}

#[test]
fn decode_cost_charges_the_transfer_once() {
    let b = ScoredBackend::new("dc", r(0.02));
    let near = f(b.decode_cost(None, "dc", r(1.5), &[], ln, &mut ClampEvents::new()).ln());
    let far = f(b.decode_cost(None, "pf", r(1.5), &[], ln, &mut ClampEvents::new()).ln());
    assert_eq!(near, 0.02f64.ln());
    assert_eq!(far, 0.02f64.ln() + 1.0f64.ln() + 1.5f64.ln());
    assert_eq!(f(b.decode_cost(None, "pf", r(0.2), &[], ln, &mut ClampEvents::new()).ln()), 0.02f64.ln());
    assert_eq!(f(b.prefill_cost(Some(r(1.0)), ln, &mut ClampEvents::new()).ln()), 0.02f64.ln() + 0.0 + 0.5f64.ln());
}

const SECOND: u64 = 1_000_000_000;

#[test]
fn rebalance_respects_hysteresis_and_cooldown() {
    let now = 1000 * SECOND;
    let mut reb = PoolRebalancer::new(RebalancerMode::CanActuate, now);
    let small =
        PoolPressure { q_prefill: r(0.51), q_decode: r(0.49), ..PoolPressure::default() };
    assert!(reb.maybe_update(&small, now).is_none());
    let big = PoolPressure { q_prefill: r(0.95), q_decode: r(0.05), ..PoolPressure::default() };
    assert!(reb.maybe_update(&big, now).is_some());
    assert!(reb.maybe_update(&big, now).is_none());
    assert_eq!(f(reb.pi()), 0.5 * 0.95 / (0.5 * 0.95 + 0.5 * 0.05));
    // After the cooldown another change is possible.
    let back = PoolPressure { q_prefill: r(0.05), q_decode: r(0.95), ..PoolPressure::default() };
    assert!(reb.maybe_update(&back, now + 29 * SECOND).is_none());
    assert!(reb.maybe_update(&back, now + 30 * SECOND).is_some());
}

#[test]
fn shadow_mode_never_actuates() {
    let mut reb = PoolRebalancer::new(RebalancerMode::Shadow, 1000 * SECOND);
    let heavy = PoolPressure { q_prefill: r(0.99), q_decode: r(0.01), ..PoolPressure::default() };
    assert!(reb.maybe_update(&heavy, 1000 * SECOND).is_none());
    assert!(f(reb.shadow_pi_star(&heavy)) > 0.8);
    assert_eq!(f(reb.shadow_pi_star(&PoolPressure::default())), 0.5);
}

#[test]
fn gossip_is_condensed_to_means() {
    let g = PoolGossip {
        prefill_occupancy: vec![r(0.5), r(2.0)],
        decode_occupancy: vec![],
        decode_kv_pressure: vec![r(0.25), r(0.5), r(0.75)],
    };
    let p = export_pool_pressure(&g, r(1.5));
    assert_eq!(f(p.q_prefill), 0.75);
    assert_eq!(f(p.q_decode), 0.0);
    assert_eq!(f(p.kv_decode), 0.5);
    assert_eq!(f(p.fp_share), 1.0);
}

#[test]
fn shadow_logs_keep_the_newest() {
    let mut log = CorrectorShadowLog::new(2);
    assert!(log.is_empty());
    for i in 0..3 {
        log.record(sample(0.0, i));
    }
    assert_eq!(log.len(), 2);
    assert_eq!(log.samples()[0].observed_us, 1);
    let mut zero = RdmaCostShadowLog::new(0);
    let row = RdmaCostShadowSample {
        pf_label: "pf".to_string(),
        dc_label: "dc".to_string(),
        distance: 1,
        kv_bytes: 7,
        analytic_transfer_ln: r(0.0),
        flat_penalty_ln: r(0.1),
        observed_transfer_secs: r(2.0),
    };
    zero.record(row.clone());
    zero.record(row);
    assert_eq!((zero.len(), zero.is_empty()), (1, false));
    assert_eq!(f(eval_transfer_ratio_median(&zero.samples(), exp)), 2.0);
    assert_eq!(f(eval_transfer_ratio_median(&[], exp)), 1.0);
}

#[test]
fn scored_pools_are_paired_greedily() {
    let b = |label: &str, seconds: f64| ScoredBackend::new(label, r(seconds));
    let pf = vec![b("a", 0.02), b("b", 0.02)];
    let dc = vec![b("a", 0.02), b("b", 0.02)];
    assert_eq!(select_prefill(&pf, &vec![None, None], ln, &mut ClampEvents::new()), Some(0));
    assert_eq!(select_prefill(&pf, &vec![None, Some(r(0.5))], ln, &mut ClampEvents::new()), Some(1));
    assert_eq!(select_prefill(&vec![], &vec![], ln, &mut ClampEvents::new()), None);
    assert_eq!(select_decode(&pf[1], &dc, &vec![None, None], r(1.15), ln, &mut ClampEvents::new()), Some(1));
    assert_eq!(select_decode(&pf[1], &dc, &vec![None, None], r(0.5), ln, &mut ClampEvents::new()), Some(0));
    assert_eq!(select_decode(&pf[1], &dc, &vec![Some(r(1.0)), None], r(1.15), ln, &mut ClampEvents::new()), Some(0));
    // The cheaper prefill backend leads to the dearer pair.
    let pf = vec![b("a", 0.010), b("b", 0.0101)];
    let dc = vec![b("b", 0.01)];
    let regret = f(pairing_regret(&pf, &vec![None, None], &dc, &vec![None], r(1.15), ln, exp, &mut ClampEvents::new()));
    assert!((regret - (1.15 / 1.01 - 1.0)).abs() < 1e-12, "{regret}");
    assert_eq!(f(pairing_regret(&pf, &vec![None, None], &vec![], &vec![], r(1.15), ln, exp, &mut ClampEvents::new())), 0.0);
}

#[test]
fn copying_passes_shrink_the_rest() {
    for fraction in [0.0, 0.5, 0.999_999, 1.0, 7.0, f64::NAN, -0.0] {
        for total_bytes in [1u64, 2, 1 << 20, (1 << 53) + 1, u64::MAX] {
            let m = QuiesceModel {
                total_bytes,
                chunk_bytes: 0,
                per_chunk_us: 1,
                dirty_fraction: r(fraction),
            };
            let end = m.quiesce(1);
            assert!(end.residual_bytes < total_bytes || total_bytes == 1, "{fraction} {total_bytes}");
        }
        let m = QuiesceModel {
            total_bytes: 1000,
            chunk_bytes: 10,
            per_chunk_us: 1,
            dirty_fraction: r(fraction),
        };
        assert!(m.quiesce(990).residual_bytes <= 10);
    }
}

#[test]
fn shares_stay_shares() {
    let mut reb = PoolRebalancer::new(RebalancerMode::CanActuate, 100_000_000_000);
    for (i, q) in [0.0, 1.0, 0.3, 1e9, 0.9].into_iter().enumerate() {
        let p = PoolPressure { q_prefill: r(q), q_decode: r(0.1), ..PoolPressure::default() };
        reb.maybe_update(&p, 100_000_000_000 + i as u64 * 40_000_000_000);
        assert!((0.0..=1.0).contains(&f(reb.pi())));
    }
}

#[test]
fn jitter_is_bounded_at_the_extremes() {
    for delay in [0u64, 1, 1000, u64::MAX - 1, u64::MAX] {
        for jitter in [0u64, 1, 999, u64::MAX / 2, u64::MAX] {
            for salt in [0u64, 1, 12345, u64::MAX] {
                let d = jitter_delay_us(delay, jitter, salt);
                assert!(d <= delay.saturating_add(jitter) && d >= delay.saturating_sub(jitter));
            }
        }
    }
}

#[test]
fn broken_backends_are_counted_as_often_as_they_are_priced() {
    let b = |label: &str, seconds: f64| ScoredBackend::new(label, r(seconds));
    let pool = vec![b("a", f64::NAN), b("b", 0.02), b("c", 0.03)];
    let none = vec![None, None, None];
    let mut events = ClampEvents::new();
    // The first comparison prices the broken one, the second does not.
    assert_eq!(select_prefill(&pool, &none, ln, &mut events), Some(1));
    assert_eq!(events.count, 1);
    let pool = vec![b("b", 0.02), b("a", f64::NAN), b("c", f64::NAN)];
    assert_eq!(select_prefill(&pool, &none, ln, &mut events), Some(0));
    assert_eq!(events.count, 3);
    assert_eq!(
        select_decode(&b("x", 1.0), &pool, &none, r(f64::INFINITY), ln, &mut events),
        Some(0)
    );
    assert_eq!(events.count, 3 + (1 + 2) + (1 + 2));
    pairing_regret_targets(
        &vec![scored("p", f64::NAN, 1.0)],
        &vec![scored("d", 0.02, 1.0)],
        exp,
        &mut events,
    );
    assert_eq!(events.count, 9 + 2);
    let mut ctrl = GraduationController::new();
    ctrl.evaluate(&saturating_samples(), 0, &gate(), ln, exp, &mut events);
    assert_eq!(events.count, 12);
}
