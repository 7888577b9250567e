use demiurge::backend::{pool_core_scale, service_cost};
use demiurge::binary64::Real;
use demiurge::factors::{
    compose, phi_barrier, phi_barrier_marginal, warmth_discount, BarrierFactor, ClampEvents, Corrector, Cost,
    Discount, FactorError, TimeCore,
};
use demiurge::kv::{fleet_marginal_bytes, fleet_marginal_bytes_wrong};
use demiurge::params::{
    CORRECTOR_CEILING_BITS, CORRECTOR_FLOOR_BITS, TOPOLOGY_RDMA_SAME_NODE,
    WARMTH_MAX_DISCOUNT_BITS,
};
use demiurge::topology::{
    rdma_distance, rdma_transfer_barrier, rdma_transfer_ln, rdma_transfer_seconds, TopologyId,
    TopologyMap,
};

fn r(x: f64) -> Real {
    Real::from_bits(x.to_bits())
}

fn f(x: Real) -> f64 {
    f64::from_bits(x.to_bits())
}

fn ln(x: Real) -> Real {
    r(f(x).ln())
}

fn cost(core: TimeCore, barriers: &[BarrierFactor], discounts: &[Discount], c: Corrector) -> f64 {
    f(compose(core, barriers, discounts, c, ln).ln())
}

#[test]
fn rejects_nonpositive_core() {
    assert!(TimeCore::new(r(0.0)).is_err());
    assert!(TimeCore::new(r(-1.0)).is_err());
    assert!(TimeCore::new(r(f64::NAN)).is_err());
}

#[test]
fn identity_corrector_is_one() {
    assert_eq!(f(Corrector::identity().get()), 1.0);
}

#[test]
fn factors_say_why_they_refuse() {
    assert_eq!(TimeCore::new(r(f64::INFINITY)).err(), Some(FactorError::NotFinite));
    assert_eq!(TimeCore::new(r(-0.0)).err(), Some(FactorError::OutOfRange));
    assert_eq!(BarrierFactor::new(r(f64::NAN)).err(), Some(FactorError::NotFinite));
    assert_eq!(BarrierFactor::new(r(0.999)).err(), Some(FactorError::OutOfRange));
    assert_eq!(Discount::new(r(f64::NEG_INFINITY)).err(), Some(FactorError::NotFinite));
    assert_eq!(Discount::new(r(1.5)).err(), Some(FactorError::OutOfRange));
    assert_eq!(Discount::new(r(0.0)).err(), Some(FactorError::OutOfRange));
    assert_eq!(FactorError::NotFinite.message(), "factor must be finite");
    assert_eq!(FactorError::OutOfRange.message(), "factor outside its permitted range");
    assert_eq!(f(TimeCore::new(r(2.5)).unwrap().get()), 2.5);
    assert_eq!(f(BarrierFactor::new(r(1.0)).unwrap().get()), 1.0);
    assert_eq!(f(Discount::new(r(1.0)).unwrap().get()), 1.0);
}

#[test]
fn unusable_factors_take_the_least_attractive_value() {
    for bad in [f64::NAN, f64::INFINITY, f64::NEG_INFINITY, -1.0, 0.0] {
        assert_eq!(f(TimeCore::clamped(r(bad), &mut ClampEvents::new()).get()), f64::MAX);
        assert_eq!(f(BarrierFactor::clamped(r(bad), &mut ClampEvents::new()).get()), f64::MAX);
        assert_eq!(f(Discount::clamped(r(bad), &mut ClampEvents::new()).get()), 1.0);
    }
    assert_eq!(f(BarrierFactor::clamped(r(0.5), &mut ClampEvents::new()).get()), f64::MAX);
    assert_eq!(f(Discount::clamped(r(1.01), &mut ClampEvents::new()).get()), 1.0);
    assert_eq!(f(TimeCore::clamped(r(0.25), &mut ClampEvents::new()).get()), 0.25);
}

#[test]
fn corrector_holds_its_envelope() {
    assert_eq!(f(Real::from_bits(CORRECTOR_FLOOR_BITS)), 1.0 - 0.20);
    assert_eq!(f(Real::from_bits(CORRECTOR_CEILING_BITS)), 1.0 + 0.20);
    assert_eq!(f(Corrector::new(r(5.0), &mut ClampEvents::new()).get()), 1.2);
    assert_eq!(f(Corrector::new(r(-5.0), &mut ClampEvents::new()).get()), 0.8);
    assert_eq!(f(Corrector::new(r(1.1), &mut ClampEvents::new()).get()), 1.1);
    assert_eq!(f(Corrector::new(r(f64::NAN), &mut ClampEvents::new()).get()), 1.0);
    assert_eq!(f(Corrector::new(r(f64::INFINITY), &mut ClampEvents::new()).get()), 1.0);
    let core = TimeCore::new(r(0.3)).unwrap();
    let base = cost(core, &[], &[], Corrector::identity());
    for raw in [-1e6, 0.0, 0.79, 0.9, 1.0, 1.15, 1.21, 1e6] {
        let shift = (cost(core, &[], &[], Corrector::new(r(raw), &mut ClampEvents::new())) - base).abs();
        let bound = 1.2f64.ln().abs().max(0.8f64.ln().abs());
        assert!(shift <= bound + 1e-9, "shift={shift} bound={bound}");
    }
}

#[test]
fn from_ln_saturates_non_finite_fail_expensive() {
    for bad in [f64::NAN, f64::INFINITY, f64::NEG_INFINITY] {
        let c = Cost::from_ln(r(bad));
        assert!(c.is_positive(), "non-finite input broke the invariant");
        assert_eq!(f(c.ln()), f64::MAX, "must saturate to the most expensive cost");
    }
    assert_eq!(f(Cost::from_ln(r(0.5)).ln()), 0.5, "finite input passes through");
}

#[test]
fn invalid_signal_never_cheapens() {
    let id = Corrector::identity();

    let valid_fast = cost(TimeCore::new(r(0.001)).unwrap(), &[], &[], id);
    let broken_core = cost(TimeCore::clamped(r(f64::NAN), &mut ClampEvents::new()), &[], &[], id);
    assert!(broken_core >= valid_fast, "NaN latency cheapened a target");

    let core = TimeCore::new(r(1.0)).unwrap();
    let neutral = cost(core, &[], &[], id);
    let broken_discount = cost(core, &[], &[Discount::clamped(r(f64::NAN), &mut ClampEvents::new())], id);
    assert!(broken_discount >= neutral, "invalid discount granted a reward");
    assert_eq!(
        broken_discount, neutral,
        "invalid discount must match neutral when baseline has no reward"
    );

    let with_warmth = cost(core, &[], &[Discount::new(r(0.5)).unwrap()], id);
    assert!(
        broken_discount > with_warmth,
        "invalid discount cheapened relative to valid warmth baseline"
    );

    let with_neutral_discount = cost(core, &[], &[Discount::new(r(1.0)).unwrap()], id);
    assert_eq!(
        broken_discount, with_neutral_discount,
        "invalid discount must match baseline when valid factor was already neutral"
    );

    let broken_barrier = cost(core, &[BarrierFactor::clamped(r(f64::NAN), &mut ClampEvents::new())], &[], id);
    assert!(broken_barrier >= neutral, "invalid barrier reduced cost");
}

#[test]
fn cost_is_the_sum_of_logs_at_the_extremes() {
    let core = TimeCore::new(r(1.0)).unwrap();
    let tiny: Vec<Discount> =
        (0..255).map(|_| Discount::new(r(f64::MIN_POSITIVE)).unwrap()).collect();
    let huge: Vec<BarrierFactor> = (0..255).map(|_| BarrierFactor::new(r(1e300)).unwrap()).collect();
    let cheap = cost(core, &[], &tiny, Corrector::identity());
    let expensive = cost(core, &huge, &[], Corrector::identity());
    assert!(cheap.is_finite() && expensive.is_finite());
    assert!(cheap < expensive);
    let mut want = 1.0f64.ln();
    for _ in 0..255 {
        want += 1e300f64.ln();
    }
    assert_eq!(expensive, want);
}

fn dynamo_block_cost(
    prefill_load_scale: f64,
    active_prefill: f64,
    incoming_prompt: f64,
    overlap_credits: f64,
    active_decode: f64,
    incoming_decode: f64,
) -> f64 {
    let adjusted = (active_prefill + incoming_prompt - overlap_credits).max(0.0);
    prefill_load_scale * adjusted + active_decode + incoming_decode
}

fn argmin2(a: f64, b: f64) -> Option<usize> {
    if !a.is_finite() && !b.is_finite() {
        return None;
    }
    if !a.is_finite() {
        return Some(1);
    }
    if !b.is_finite() {
        return Some(0);
    }
    Some(usize::from(b < a))
}

#[test]
fn dynamo_unbounded_overlap_can_undercut_healthy_worker() {
    let scale = 1.0;
    let healthy = dynamo_block_cost(scale, 0.0, 100.0, 20.0, 10.0, 5.0);
    let poisoned = dynamo_block_cost(scale, 0.0, 100.0, 10_000.0, 40.0, 5.0);
    assert!(
        poisoned < healthy,
        "unbounded overlap must be able to undercut healthy (poisoned={poisoned} healthy={healthy})"
    );
    assert_eq!(argmin2(healthy, poisoned), Some(1));
}

#[test]
fn dynamo_nan_overlap_poisons_rank_demiurge_stays_finite() {
    let scale = 1.0;
    let healthy = dynamo_block_cost(scale, 0.0, 80.0, 10.0, 8.0, 4.0);
    let nan_cost = dynamo_block_cost(scale, 0.0, 80.0, f64::NAN, 8.0, 4.0);
    assert!(nan_cost.is_finite());
    assert!((nan_cost - 12.0).abs() < 1e-9, "NaN overlap must erase prefill (got {nan_cost})");
    assert!(nan_cost < healthy);
    assert_eq!(argmin2(healthy, nan_cost), Some(1));

    let id = Corrector::identity();
    let demi_healthy = compose(
        TimeCore::new(r(1.0)).unwrap(),
        &[BarrierFactor::new(r(1.0 + 8.0)).unwrap()],
        &[warmth_discount(r(0.25)).unwrap()],
        id,
        ln,
    );
    let demi_broken_warmth = compose(
        TimeCore::new(r(1.0)).unwrap(),
        &[BarrierFactor::new(r(1.0 + 8.0)).unwrap()],
        &[Discount::clamped(r(f64::NAN), &mut ClampEvents::new())],
        id,
        ln,
    );
    assert!(demi_healthy.ln().is_finite());
    assert!(demi_broken_warmth.ln().is_finite());
    assert!(
        f(demi_broken_warmth.ln()) >= f(demi_healthy.ln()),
        "invalid warmth must not cheapen a valid hit"
    );
}

#[test]
fn demiurge_rho_max_caps_warmth_unlike_unbounded_overlap() {
    let rho = f(Real::from_bits(WARMTH_MAX_DISCOUNT_BITS));
    let core = TimeCore::new(r(2.0)).unwrap();
    let id = Corrector::identity();
    let no_warmth = cost(core, &[], &[], id);
    let full_hit = compose(core, &[], &[warmth_discount(r(1.0)).unwrap()], id, ln);
    let expected_factor = 1.0 - rho;
    assert!((f(warmth_discount(r(1.0)).unwrap().get()) - expected_factor).abs() < 1e-12);
    let ratio = (f(full_hit.ln()) - no_warmth).exp();
    assert!(
        (ratio - expected_factor).abs() < 1e-9,
        "full hit must apply exactly the envelope (ratio={ratio})"
    );
    assert!(full_hit.is_positive());
    assert!(f(full_hit.ln()).exp() > expected_factor);
}

#[test]
fn warmth_discount_bounded() {
    let rho = f(Real::from_bits(WARMTH_MAX_DISCOUNT_BITS));
    assert!(warmth_discount(r(0.0)).is_none());
    let d = f(warmth_discount(r(1.0)).expect("hit").get());
    assert!(d > 0.0 && d <= 1.0);
    assert!(d >= 1.0 - rho);
    assert!((d - (1.0 - rho)).abs() < 1e-12);
    assert!(warmth_discount(r(f64::NAN)).is_none());
    assert!(warmth_discount(r(-3.0)).is_none());
    assert_eq!(f(warmth_discount(r(40.0)).unwrap().get()), 1.0 - rho);
    assert_eq!(f(warmth_discount(r(0.3)).unwrap().get()), 1.0 - 0.3 * rho);
}

#[test]
fn broken_signals_never_undercut_a_service() {
    for &core in &[1e-6, 0.02, 3.0, 1e3] {
        for &inflight in &[0usize, 1, 63] {
            for &warmth in &[0.0, 0.4, 1.0] {
                let discounts: Vec<Discount> = warmth_discount(r(warmth)).into_iter().collect();
                let healthy = f(service_cost(r(core), inflight, &[], &discounts, ln, &mut ClampEvents::new()).ln());
                let broken_core = f(service_cost(r(f64::NAN), inflight, &[], &discounts, ln, &mut ClampEvents::new()).ln());
                assert!(broken_core >= healthy);
                let phi = [BarrierFactor::clamped(r(f64::NAN), &mut ClampEvents::new())];
                assert!(f(service_cost(r(core), inflight, &phi, &discounts, ln, &mut ClampEvents::new()).ln()) >= healthy);
                let neutral = [Discount::clamped(r(f64::NAN), &mut ClampEvents::new())];
                let broken = f(service_cost(r(core), inflight, &[], &neutral, ln, &mut ClampEvents::new()).ln());
                if warmth > 0.0 {
                    assert!(broken > healthy - 1e-12);
                } else {
                    assert!((broken - healthy).abs() < 1e-9);
                }
                let want = core.ln() + (1.0 + inflight as f64).ln();
                assert_eq!(f(service_cost(r(core), inflight, &[], &[], ln, &mut ClampEvents::new()).ln()), want);
            }
        }
    }
}

#[test]
fn phi_uses_fleet_aggregate_not_p90_sum() {
    let fleet_reserved = 500_u64;
    let p90 = 100_u64;
    let capacity = 700_u64;
    let correct = fleet_marginal_bytes(fleet_reserved, p90);
    let wrong = fleet_marginal_bytes_wrong(fleet_reserved, p90, 10);
    assert_eq!(correct, 600);
    assert_eq!(wrong, 1500);
    assert!(correct <= capacity);
    assert!(wrong > capacity);
    let b_ok = phi_barrier_marginal(fleet_reserved, p90, capacity);
    let b_wrong = phi_barrier(wrong, capacity);
    assert!(f(b_ok.get()) < f(b_wrong.get()));
}

#[test]
fn phi_barrier_monotonic_with_load() {
    let cap = 10_000_u64;
    let low = f(phi_barrier(2_000, cap).get());
    let high = f(phi_barrier(8_000, cap).get());
    assert!(high > low);
    assert!(low >= 1.0);
}

#[test]
fn phi_barrier_has_exact_values() {
    assert_eq!(f(phi_barrier(0, 100).get()), 1.0);
    assert_eq!(f(phi_barrier(50, 100).get()), 2.0);
    assert_eq!(f(phi_barrier(100, 100).get()), 1.0 / (1.0 - 0.999));
    assert_eq!(f(phi_barrier(3, 7).get()), 1.0 / (1.0 - 3.0 / 7.0));
    assert_eq!(f(phi_barrier(1, 0).get()), f64::MAX);
}

fn topo(node: &str, rack: &str, cluster: &str) -> TopologyId {
    TopologyId::new(node, rack, cluster)
}

#[test]
fn rdma_distance_same_node_is_zero() {
    let a = topo("n0", "r0", "cA");
    assert_eq!(rdma_distance(&a, &a), TOPOLOGY_RDMA_SAME_NODE);
}

#[test]
fn rdma_distance_ladder_ordered() {
    let n0 = topo("n0", "r0", "cA");
    let n1 = topo("n1", "r0", "cA");
    let n2 = topo("n2", "r1", "cA");
    let n3 = topo("n3", "r9", "cB");
    assert!(rdma_distance(&n0, &n1) < rdma_distance(&n0, &n2));
    assert!(rdma_distance(&n0, &n2) < rdma_distance(&n0, &n3));
}

#[test]
fn rdma_transfer_monotonic_in_bytes() {
    let pf = topo("n0", "r0", "cA");
    let dc = topo("n1", "r0", "cA");
    let d = rdma_distance(&pf, &dc);
    let small = f(rdma_transfer_seconds(4096, d));
    let large = f(rdma_transfer_seconds(4 * 4096, d));
    assert!(large > small);
    assert_eq!(small, 5.0 / 1_000_000.0 + 4096.0 / 12_500_000_000.0);
    assert_eq!(f(rdma_transfer_ln(4096, &pf, &dc, ln)), small.ln());
    let barrier = f(rdma_transfer_barrier(4096, &pf, &dc).get());
    assert_eq!(barrier, (small / (2.0 / 1_000_000.0)).max(1.0));
}

#[test]
fn last_place_for_a_label_counts() {
    let mut map = TopologyMap::new();
    map.insert("a", topo("n0", "r0", "c0"));
    map.insert("a", topo("n1", "r1", "c1"));
    assert_eq!(map.place("a"), topo("n1", "r1", "c1"));
    assert_eq!(map.place("b"), topo("", "", ""));
}

#[test]
fn pool_core_scale_biases_prefill_under_high_pi() {
    let base = 0.02;
    let prefill_at_high = f(pool_core_scale(r(base), r(0.85), true));
    let prefill_at_mid = f(pool_core_scale(r(base), r(0.5), true));
    assert!(prefill_at_high < prefill_at_mid);
    let decode_at_high = f(pool_core_scale(r(base), r(0.85), false));
    assert!(decode_at_high > base);
    assert_eq!(prefill_at_mid, base);
}

#[test]
fn warmer_backends_are_never_dearer() {
    let mut last = 1.0;
    for i in 1..=2000 {
        let d = f(warmth_discount(r(i as f64 / 1000.0)).expect("hit").get());
        assert!(d <= last);
        last = d;
    }
    assert_eq!(last, 0.5);
}

#[test]
fn longer_transfers_are_never_faster() {
    let mut last = 0.0;
    for d in 0..4 {
        for bytes in [0u64, 1, 4096, 1 << 40, u64::MAX] {
            let s = f(rdma_transfer_seconds(bytes, d));
            assert!(bytes == 0 || s >= last);
            last = s;
        }
    }
    for bytes in [0u64, 4096, u64::MAX] {
        for d in 0..3 {
            assert!(f(rdma_transfer_seconds(bytes, d)) <= f(rdma_transfer_seconds(bytes, d + 1)));
        }
    }
}

#[test]
fn linear_cost_is_for_display() {
    let exp = |x: Real| r(f(x).exp());
    assert_eq!(f(Cost::from_ln(r(0.0)).get(exp)), 1.0);
    assert_eq!(f(Cost::from_ln(r(1e6)).get(exp)), f64::INFINITY);
    assert_eq!(f(Cost::from_ln(r(-1e6)).get(exp)), 0.0);
}

#[test]
fn penalties_raise_and_rewards_lower() {
    let core = TimeCore::new(r(0.02)).unwrap();
    let id = Corrector::identity();
    let b = BarrierFactor::new(r(1.5)).unwrap();
    let d = Discount::new(r(0.7)).unwrap();
    assert!(cost(core, &[b], &[d], id) > cost(core, &[], &[d], id));
    assert!(cost(core, &[b], &[d], id) < cost(core, &[b], &[], id));
    let one = BarrierFactor::new(r(1.0)).unwrap();
    assert_eq!(cost(core, &[b, one], &[], id), cost(core, &[b], &[], id));
}

#[test]
fn unusable_factors_are_counted() {
    let mut events = ClampEvents::new();
    let core = TimeCore::clamped(r(f64::NAN), &mut events);
    assert_eq!(events.count, 1);
    BarrierFactor::clamped(r(0.5), &mut events);
    BarrierFactor::clamped(r(2.0), &mut events);
    assert_eq!(events.count, 2);
    Discount::clamped(r(0.0), &mut events);
    Discount::clamped(r(1.0), &mut events);
    assert_eq!(events.count, 3);
    for (raw, counted) in [(3.0, 4), (0.79, 5), (f64::INFINITY, 6), (1.2, 6), (0.8, 6)] {
        Corrector::new(r(raw), &mut events);
        assert_eq!(events.count, counted, "{raw}");
    }
    // A factor counts when it is made, however often it is used.
    compose(core, &[], &[], Corrector::identity(), ln);
    compose(core, &[], &[], Corrector::identity(), ln);
    assert_eq!(events.count, 6);
    service_cost(r(-1.0), 0, &[], &[], ln, &mut events);
    service_cost(r(1.0), 7, &[], &[], ln, &mut events);
    assert_eq!(events.count, 7);
    events.add_count(u64::MAX);
    assert_eq!(events.count, 6);
}

#[test]
fn corrector_moves_costs_within_its_envelope() {
    let widest = -(0.8f64.ln());
    let barriers = vec![BarrierFactor::new(r(1e300)).unwrap(); 200];
    let core = TimeCore::new(r(0.02)).unwrap();
    let plain = cost(core, &barriers, &[], Corrector::identity());
    for raw in [-1e6, 0.0, 0.5, 0.9, 1.0, 1.1, 7.0, f64::NAN] {
        let moved = cost(core, &barriers, &[], Corrector::new(r(raw), &mut ClampEvents::new()));
        assert!((moved - plain).abs() <= widest + 1e-9, "{raw}");
    }
}
