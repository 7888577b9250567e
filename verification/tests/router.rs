use std::time::Duration;

use demiurge::admission::AdmitMode;
use demiurge::auth::{
    CacheDomainKey, GroupId, PrefixFingerprint, SharedPrefixGroupRegistry, TenantId,
};
use demiurge::backend::{select, select_with_warmth, Backend};
use demiurge::banner::{
    banner_enabled, color_enabled, format_bytes, quiet_mode, render_startup_banner,
    render_startup_line,
};
use demiurge::binary64::Real;
use demiurge::config::{parse_pool, parse_topology_map};
use demiurge::factors::ClampEvents;
use demiurge::handoff::{
    HandoffTransport, HeaderPassthroughTransport, MockRdmaTransport, ModeledRdmaTransport,
};
use demiurge::http::RequestIdentity;
use demiurge::ids::{IdSource, RequestId};
use demiurge::kv::kv_breakdown;
use demiurge::ledger::ReservationLedger;
use demiurge::params::{DATAPLANE_ADMIT_BURST, DATAPLANE_RCU_HEARTBEAT_MS};
use demiurge::rebalancer::{PoolGossip, PoolPressure};
use demiurge::router::{
    admit_disaggregated, DecodePlacement, Moment, Phase, PrefillSignals, RouteError, RoutePath,
    Router, WarmthView,
};
use demiurge::secret::AuthSecret;
use demiurge::shadow::{eval_goodput_improvement, eval_transfer_ratio_median, train_bounded_delta};
use demiurge::terminal::visible_len;
use demiurge::topology::TopologyMap;

fn r(x: f64) -> Real {
    Real::from_bits(x.to_bits())
}

fn f(x: Real) -> f64 {
    f64::from_bits(x.to_bits())
}

fn ln(x: Real) -> Real {
    r(f(x).ln())
}

fn exp(x: Real) -> Real {
    r(f(x).exp())
}

fn at(now_ms: u64) -> Moment {
    Moment { now_ms, now_ns: now_ms * 1_000_000, kernel_alive: true }
}

const NOW: u64 = 10_000_000;

fn backend(label: &str, seconds: f64) -> Backend {
    Backend::new(label, r(seconds))
}

fn router(prefill: Vec<Backend>, decode: Vec<Backend>) -> Router {
    Router::new(prefill, decode, at(NOW), AdmitMode::Userspace, false, false, Phase::Prefill)
}

fn pool(spec: &str, topo: &TopologyMap) -> Vec<Backend> {
    parse_pool(spec)
        .into_iter()
        .map(|b| {
            let b = b.expect("well formed");
            let seconds: f64 = b.seconds.parse().unwrap();
            Backend::new_with_topology(&b.label, r(seconds), topo.place(&b.label))
        })
        .collect()
}

fn route(router: &mut Router, head: &[u8]) -> Result<RoutePath, RouteError> {
    route_from(router, head, &mut IdSource::new())
}

fn route_from(
    router: &mut Router,
    head: &[u8],
    ids: &mut IdSource,
) -> Result<RoutePath, RouteError> {
    router
        .route(head, None, at(NOW), ln, exp, ids, &mut ClampEvents::new())
        .map(|(path, _)| path)
}

fn complete<T: HandoffTransport>(
    router: &mut Router,
    signals: &PrefillSignals,
    response: &[u8],
    label: &str,
    transport: &T,
) -> Result<DecodePlacement, RouteError> {
    let mut events = ClampEvents::new();
    let now = at(NOW);
    router.on_prefill_complete(signals, response, label, transport, None, now, ln, exp, &mut events)
}

fn signals(id: u64, prompt_tokens: u64, wall: Duration) -> PrefillSignals {
    PrefillSignals {
        request_id: RequestId { id },
        prompt_tokens,
        prefill_wall_ns: wall.as_nanos(),
    }
}

fn handoff_head(prompt_tokens: u64, bytes_per_token: u64, handle: u64) -> String {
    let reserved = kv_breakdown(prompt_tokens, bytes_per_token).kv_reserved;
    format!(
        "HTTP/1.1 200 OK\r\nx-demiurge-kv-handle: {handle}\r\nx-demiurge-kv-bytes: {reserved}\r\n\r\n"
    )
}

fn reserved(router: &Router) -> u64 {
    router.ledger().expect("ledger").fleet_reserved()
}

fn warmth(prefill: &[f64], decode: &[f64]) -> WarmthView {
    WarmthView {
        prefill_known: vec![true; prefill.len()],
        prefill: prefill.iter().map(|&x| r(x)).collect(),
        decode: decode.iter().map(|&x| r(x)).collect(),
        prefill_as_decode: vec![r(0.0); prefill.len()],
        gossip: PoolGossip {
            prefill_occupancy: vec![r(0.0); prefill.len()],
            decode_occupancy: vec![r(0.0); decode.len()],
            decode_kv_pressure: vec![],
        },
    }
}

#[test]
fn selects_min_cost_backend() {
    let mut pool = vec![backend("cheap", 0.01), backend("dear", 1.00)];
    assert_eq!(pool[select(&pool, ln).unwrap()].label, "cheap");
    for _ in 0..200 {
        pool[0].incr_inflight();
    }
    assert_eq!(pool[select(&pool, ln).unwrap()].label, "dear");
    assert!(select(&vec![], ln).is_none());
}

#[test]
fn warmth_decides_between_equal_backends() {
    let pool = vec![backend("a", 0.02), backend("b", 0.02)];
    assert_eq!(select(&pool, ln), Some(0));
    let strengths = vec![Some(r(0.0)), Some(r(0.5))];
    assert_eq!(select_with_warmth(&pool, &[], &strengths, false, ln, &mut ClampEvents::new()), Some(1));
    assert_eq!(f(pool[0].cost(ln).ln()), 0.02f64.ln() + 1.0f64.ln());
}

#[test]
fn short_context_uses_colocated_path() {
    let mut router = router(vec![backend("pf", 0.01)], vec![backend("dc", 0.02)]);
    let head = b"GET / HTTP/1.1\r\nhost: x\r\nx-demiurge-tokens: 32\r\n\r\n";
    match route(&mut router, head).expect("route") {
        RoutePath::Colocated { phase, backend } => {
            assert_eq!(router.pool(phase)[backend].label, "pf")
        }
        other => panic!("expected colocated fast path, got {other:?}"),
    }
}

#[test]
fn every_kind_of_request_has_its_path() {
    let mut ids = IdSource::new();
    let mut router = router(vec![backend("pf", 0.01)], vec![backend("dc", 0.02)]);
    let long = b"GET /long/513 HTTP/1.1\r\n\r\n";
    assert_eq!(
        route_from(&mut router, long, &mut ids).unwrap(),
        RoutePath::Disaggregated { prefill: 0, request_id: RequestId { id: 1 }, prompt_tokens: 513 }
    );
    let unknown = b"POST /v1/chat HTTP/1.1\r\n\r\n";
    assert_eq!(
        route_from(&mut router, unknown, &mut ids).unwrap(),
        RoutePath::Disaggregated { prefill: 0, request_id: RequestId { id: 2 }, prompt_tokens: 513 }
    );
    let edge = b"GET /long/512 HTTP/1.1\r\n\r\n";
    assert_eq!(
        route_from(&mut router, edge, &mut ids).unwrap(),
        RoutePath::Colocated { phase: Phase::Prefill, backend: 0 }
    );
    let decode = b"POST /x HTTP/1.1\r\nX-Demiurge-Phase: Decode\r\n\r\n";
    assert_eq!(route(&mut router, decode).unwrap(), RoutePath::DecodeOnly { backend: 0 });
    let m = router.control_metrics(NOW, 0);
    assert_eq!((m.colocated_routes, m.disagg_routes), (1, 3));
    assert_eq!(f(m.fast_path_ratio), 0.25);
    let mut empty = Router::new(
        vec![],
        vec![],
        at(NOW),
        AdmitMode::Userspace,
        false,
        false,
        Phase::Decode,
    );
    for head in [&long[..], edge, decode] {
        assert_eq!(route(&mut empty, head), Err(RouteError::NoBackend));
    }
    assert_eq!(RouteError::NoBackend.message(), "no backend available for route");
    assert_eq!(
        RouteError::PrefillIo("reset".to_string()).message(),
        "prefill I/O error: reset"
    );
}

#[test]
fn disaggregated_decode_requires_handoff() {
    let mut router =
        router(vec![backend("pf", 0.01)], vec![backend("dc", 0.02)]).with_kv_pool(1_000_000, 128);
    let s = signals(1, 32, Duration::ZERO);
    let empty = b"HTTP/1.1 200 OK\r\ncontent-length: 0\r\n\r\n";
    assert!(matches!(
        complete(&mut router, &s, empty, "pf", &HeaderPassthroughTransport),
        Err(RouteError::HandoffMissing)
    ));

    let with_handoff = handoff_head(32, 128, 9);
    let placement =
        complete(&mut router, &s, with_handoff.as_bytes(), "pf", &HeaderPassthroughTransport)
            .expect("ok");
    assert_eq!(router.pool(placement.phase)[placement.backend].label, "dc");
    assert!(reserved(&router) > 0);
    let h = router.handoffs().unwrap().get(1).expect("published");
    assert_eq!(h.decode_label.as_deref(), Some("dc"));
    router.release_reservation(placement.reservation.expect("held"));
    assert_eq!(reserved(&router), 0);
}

#[test]
fn handoff_size_must_be_credible() {
    let mut router =
        router(vec![backend("pf", 0.01)], vec![backend("dc", 0.02)]).with_kv_pool(u64::MAX, 128);
    let expected = kv_breakdown(32, 128).kv_reserved;
    for (bytes, ok) in [
        (expected - 1, false),
        (expected, true),
        (expected * 4, true),
        (expected * 4 + 1, false),
    ] {
        let head = format!("x-demiurge-kv-handle: 9\r\nx-demiurge-kv-bytes: {bytes}\r\n\r\n");
        let s = signals(bytes, 32, Duration::ZERO);
        let r = complete(&mut router, &s, head.as_bytes(), "pf", &HeaderPassthroughTransport);
        assert_eq!(r.is_ok(), ok, "{bytes}");
        if !ok {
            assert!(matches!(r, Err(RouteError::HandoffMissing)));
        }
    }
}

#[test]
fn phi_barrier_raises_decode_cost_under_pressure() {
    let router =
        router(vec![backend("pf", 0.01)], vec![backend("dc", 0.02)]).with_kv_pool(1_000_000, 128);
    let pick = router.pick(Phase::Decode, ln).expect("decode");
    let cheap = f(router.pool(Phase::Decode)[pick].cost(ln).ln());
    let mut ledger = ReservationLedger::new(1_000_000);
    let chunk = 50_000_u64;
    for id in 0..8 {
        let _ = ledger.try_reserve(id, chunk, 0).expect("reserve");
    }
    let phi = ledger.phi_barrier();
    let pick = router.pick_with_phi(Phase::Decode, Some(phi), ln, &mut ClampEvents::new()).expect("decode");
    let dear = f(router.pool(Phase::Decode)[pick].cost_with_barriers(&[phi], ln, &mut ClampEvents::new()).ln());
    assert!(dear > cheap);
    assert_eq!(f(phi.get()), 1.0 / (1.0 - 450_000.0 / 1_000_000.0));
}

#[test]
fn harden_admit_conn_single_guard_path() {
    let mut router = router(vec![backend("pf", 0.01)], vec![]).with_admit_mode(AdmitMode::Userspace);
    router.sync_admit_capacity(1);
    assert_eq!(router.admit_bucket().available(), 1);
    assert!(router.admit_conn().is_ok());
    assert_eq!(router.admit_bucket().available(), 0);
    router.release_conn();
    assert_eq!(router.admit_bucket().available(), 1);
}

#[test]
fn admit_bucket_sheds_on_live_router() {
    let mut router = router(vec![backend("pf0", 0.01)], vec![]);
    let cap = router.admit_bucket().capacity();
    for _ in 0..cap {
        assert_eq!(router.admit_conn(), Ok(true));
    }
    assert!(router.admit_conn().is_err());
    assert!(router.admit_bucket().shed_total() >= 1);
    assert_eq!(router.control_metrics(NOW, 4).admit_shed_total, 5);
}

#[test]
fn kernel_program_takes_over_and_can_be_lost() {
    let mut router = router(vec![backend("pf", 0.01)], vec![backend("dc", 0.02)]);
    let cfg = router.plan_kernel_admit(Some(443));
    assert_eq!((cfg.capacity, cfg.listen_port), (DATAPLANE_ADMIT_BURST / 2, Some(443)));
    assert_eq!(router.admit_mode(), AdmitMode::Hybrid);
    router.confirm_kernel_admit(cfg.capacity);
    assert!(router.kernel_admit_attached());
    assert_eq!(router.admit_conn(), Ok(false));
    assert_eq!(router.admit_bucket().available(), cfg.capacity);
    let lost = Moment { kernel_alive: false, ..at(NOW + DATAPLANE_RCU_HEARTBEAT_MS) };
    let (_, tick) = router
        .route(b"GET / HTTP/1.1\r\n\r\n", None, lost, ln, exp, &mut IdSource::new(), &mut ClampEvents::new())
        .expect("route");
    assert!(tick.kernel_lost);
    assert!(!router.kernel_admit_attached());
    assert_eq!(router.admit_conn(), Ok(true));
}

#[test]
fn harden_handoff_duplicate_rejects_and_releases() {
    let mut router =
        router(vec![backend("pf", 0.01)], vec![backend("dc", 0.02)]).with_kv_pool(1_000_000, 128);
    let mut ids = IdSource::new();
    let s = signals(RequestId::new(&mut ids).raw(), 32, Duration::from_micros(1));
    let with_handoff = handoff_head(32, 128, 9);
    let placement =
        complete(&mut router, &s, with_handoff.as_bytes(), "pf", &HeaderPassthroughTransport)
            .expect("first");
    assert!(reserved(&router) > 0);
    assert!(matches!(
        complete(&mut router, &s, with_handoff.as_bytes(), "pf", &HeaderPassthroughTransport),
        Err(RouteError::KvAdmitRejected)
    ));
    router.release_reservation(placement.reservation.expect("held"));
    assert_eq!(reserved(&router), 0);
}

#[test]
fn harden_kv_over_capacity_rejected() {
    let mut router =
        router(vec![backend("pf", 0.01)], vec![backend("dc", 0.02)]).with_kv_pool(4_000, 128);
    let s = signals(1, 32, Duration::from_micros(1));
    let with_handoff =
        b"HTTP/1.1 200 OK\r\nx-demiurge-kv-handle: 9\r\nx-demiurge-kv-bytes: 50000\r\n\r\n";
    assert!(matches!(
        complete(&mut router, &s, with_handoff, "pf", &HeaderPassthroughTransport),
        Err(RouteError::KvAdmitRejected)
    ));
    assert_eq!(reserved(&router), 0);
}

#[test]
fn placement_without_backends_gives_its_reservation_back() {
    let mut router = router(vec![], vec![]).with_kv_pool(1_000_000, 128);
    let s = signals(1, 32, Duration::from_micros(1));
    let head = handoff_head(32, 128, 9);
    assert!(matches!(
        complete(&mut router, &s, head.as_bytes(), "pf", &HeaderPassthroughTransport),
        Err(RouteError::NoBackend)
    ));
    assert_eq!(reserved(&router), 0);
    assert_eq!(router.ledger().unwrap().metrics().kv_reservation_error, 0);
}

#[test]
fn decode_falls_back_to_a_colocated_backend() {
    let mut router = router(vec![backend("pf", 0.01)], vec![]);
    let s = signals(1, 600, Duration::from_micros(1));
    let p = complete(&mut router, &s, b"", "pf", &HeaderPassthroughTransport).expect("placed");
    assert_eq!((p.phase, p.backend), (Phase::Prefill, 0));
    assert!(p.reservation.is_none());
}

#[test]
fn harden_step_actuation_raises_dataplane_pi() {
    let mut pf = backend("pf0", 0.01);
    for _ in 0..32 {
        pf.incr_inflight();
    }
    let mut router = router(vec![pf], vec![backend("dc0", 0.02)])
        .with_rebalancer_actuation(true, NOW * 1_000_000);
    let short = b"GET / HTTP/1.1\r\nhost: x\r\n\r\n";
    let long = b"GET /long/4096 HTTP/1.1\r\nhost: x\r\nx-demiurge-tokens: 4096\r\n\r\n";
    for _ in 0..40 {
        let _ = route(&mut router, short);
    }
    for _ in 0..80 {
        let _ = route(&mut router, long);
    }
    let pi = f(router.dataplane_pi());
    assert!(pi >= 0.55, "expected actuated share of at least 0.55 after step load, got {pi}");
    assert_eq!(router.admit_bucket().capacity(), DATAPLANE_ADMIT_BURST);
}

#[test]
fn warmth_override_forces_disaggregated_path() {
    let mut router = router(vec![backend("pf-hot", 0.01)], vec![backend("dc0", 0.02)]);
    let head = b"GET / HTTP/1.1\r\nhost: x\r\nx-demiurge-tokens: 32\r\n\r\n";
    let hot = warmth(&[1.0], &[0.0]);
    match router.route(head, Some(&hot), at(NOW), ln, exp, &mut IdSource::new(), &mut ClampEvents::new()).expect("route").0 {
        RoutePath::Disaggregated { .. } => {}
        other => panic!("expected warmth override disagg, got {other:?}"),
    }
    // A snapshot that does not know the whole pool overrides nothing, nor does lukewarm cache.
    let mut partial = warmth(&[1.0], &[0.0]);
    partial.prefill_known = vec![false];
    for w in [partial, warmth(&[0.59], &[0.0])] {
        assert!(matches!(
            router.route(head, Some(&w), at(NOW), ln, exp, &mut IdSource::new(), &mut ClampEvents::new()).expect("route").0,
            RoutePath::Colocated { .. }
        ));
    }
}

#[test]
fn greedy_decode_prefers_colocated_label_over_cheaper_remote() {
    let mut router = router(
        vec![backend("node-a", 0.01)],
        vec![backend("node-a", 0.0195), backend("node-b", 0.019)],
    );
    let head = b"GET /long/513 HTTP/1.1\r\nhost: x\r\nx-demiurge-tokens: 513\r\n\r\n";
    let RoutePath::Disaggregated { prefill, request_id, prompt_tokens } =
        route(&mut router, head).expect("route")
    else {
        panic!("expected disaggregated route");
    };
    assert_eq!(router.pool(Phase::Prefill)[prefill].label, "node-a");

    let s = PrefillSignals {
        request_id,
        prompt_tokens,
        prefill_wall_ns: Duration::from_micros(1).as_nanos(),
    };
    let placement = complete(
        &mut router,
        &s,
        b"HTTP/1.1 200 OK\r\ncontent-length: 0\r\n\r\n",
        "node-a",
        &HeaderPassthroughTransport,
    )
    .expect("decode");
    assert_eq!(
        router.pool(placement.phase)[placement.backend].label,
        "node-a",
        "independent min-cost would pick node-b; pairing applies transfer penalty"
    );

    let metrics = router.control_metrics(NOW, 0);
    assert_eq!(metrics.predictor_p90_tokens, 513);
    assert_eq!(metrics.pairing_regret_samples, 1);
}

#[test]
fn rcu_heartbeat_refreshes_snapshot_under_shadow_mode() {
    let mut router = router(vec![backend("pf0", 0.01)], vec![backend("dc0", 0.02)]);
    let later = NOW + DATAPLANE_RCU_HEARTBEAT_MS + 100;
    let head = b"GET / HTTP/1.1\r\nhost: x\r\n\r\n";
    let _ = router.route(head, None, at(later), ln, exp, &mut IdSource::new(), &mut ClampEvents::new());
    let metrics = router.control_metrics(later, 0);
    assert!(!metrics.rcu_stale, "age {}ms", metrics.dataplane_age_ms);
    assert_eq!(metrics.dataplane_age_ms, 0);
    assert_eq!(router.dataplane().generation(), 1);
}

#[test]
fn router_exposes_dataplane_pi() {
    let router = router(vec![backend("pf0", 0.01)], vec![]);
    assert!((0.0..=1.0).contains(&f(router.dataplane_pi())));
}

#[test]
fn rebalancer_actuation_publishes_pi() {
    let mut router = router(vec![backend("pf0", 0.01)], vec![backend("dc0", 0.02)])
        .with_rebalancer_actuation(true, NOW * 1_000_000);
    assert!(router.rebalancer_actuation());
    let head = b"GET /long/1024 HTTP/1.1\r\nhost: x\r\nx-demiurge-tokens: 1024\r\n\r\n";
    for _ in 0..32 {
        let _ = route(&mut router, head);
    }
    let metrics = router.control_metrics(NOW, 0);
    assert!(f(metrics.dataplane_pi) >= 0.0 && f(metrics.dataplane_pi) <= 1.0);
    assert!(!metrics.rcu_stale);
    assert_eq!(metrics.rcu_stale_alert_ms, 500);
}

#[test]
fn trace_pressure_is_applied_at_once() {
    let mut router = router(vec![backend("pf0", 0.01)], vec![backend("dc0", 0.02)])
        .with_rebalancer_actuation(true, NOW * 1_000_000);
    let p = PoolPressure { q_prefill: r(0.2), q_decode: r(0.8), ..PoolPressure::default() };
    let cap = router.actuate_from_trace_pressure(p, at(NOW));
    let want = 0.5 * 0.2 / (0.5 * 0.2 + 0.5 * 0.8);
    assert_eq!(f(router.dataplane_pi()), want);
    assert_eq!(cap, Some((4096.0 * want).round() as u64));
    assert_eq!(router.actuate_from_trace_pressure(p, at(NOW)), None);
}

/// Where a long prompt is prefilled when only the second of two equal backends is warm.
fn warm_pick() -> String {
    let mut router = router(
        vec![backend("pf-cold", 0.02), backend("pf-warm", 0.02)],
        vec![backend("dc0", 0.02)],
    );
    let head = b"GET /long/2048 HTTP/1.1\r\nhost: x\r\nx-demiurge-tokens: 2048\r\n\r\n";
    let w = warmth(&[0.0, 1.0], &[0.0]);
    match router.route(head, Some(&w), at(NOW), ln, exp, &mut IdSource::new(), &mut ClampEvents::new()).expect("route").0 {
        RoutePath::Disaggregated { prefill, .. } => {
            router.pool(Phase::Prefill)[prefill].label.clone()
        }
        other => panic!("expected disagg to warm backend, got {other:?}"),
    }
}

#[test]
fn warmth_aware_routing_improves_hit_ratio() {
    assert_eq!(warm_pick(), "pf-warm");
}

#[test]
fn greedy_prefill_picks_warm_backend() {
    assert_eq!(warm_pick(), "pf-warm");
}

#[test]
fn only_disaggregated_requests_are_prefilled_apart() {
    let mut router = router(vec![backend("pf", 0.01)], vec![backend("dc", 0.02)]);
    let long = route(&mut router, b"GET /long/600 HTTP/1.1\r\n\r\n").unwrap();
    assert_eq!(admit_disaggregated(long), Ok((0, RequestId { id: 1 }, 600)));
    let short = route(&mut router, b"GET /long/6 HTTP/1.1\r\n\r\n").unwrap();
    assert_eq!(admit_disaggregated(short), Err(RouteError::NoBackend));
    assert_eq!(
        admit_disaggregated(RoutePath::DecodeOnly { backend: 0 }),
        Err(RouteError::NoBackend)
    );
}

#[test]
fn colocated_pool_is_chosen_by_the_environment() {
    assert_eq!(Phase::colocated(None), Phase::Prefill);
    assert_eq!(Phase::colocated(Some("decode")), Phase::Decode);
    assert_eq!(Phase::colocated(Some("Decode")), Phase::Prefill);
}

const LONG_HEAD: &[u8] = b"GET /long/2048 HTTP/1.1\r\nhost: x\r\nx-demiurge-tokens: 2048\r\n\r\n";

fn auth_key() -> [u8; 32] {
    AuthSecret::new().auth_key(None)
}

fn group_and_content() -> (GroupId, PrefixFingerprint) {
    (GroupId::new(7), PrefixFingerprint::of(&auth_key(), b"shared system prompt"))
}

/// Two prefill backends of equal cost; the second is warm under the group's shared salt.
fn router_with_shared_warmth() -> (Router, GroupId, PrefixFingerprint) {
    let (group, content) = group_and_content();
    let mut reg = SharedPrefixGroupRegistry::new();
    reg.register_template(group, vec![TenantId::new(1), TenantId::new(2)], content, 42);
    let router = router(
        vec![backend("pf-cold", 0.02), backend("pf-shared", 0.02)],
        vec![backend("dc0", 0.02)],
    )
    .with_cache_registry(reg);
    (router, group, content)
}

/// Warmth as a store of salted blocks gives it: only a lookup under the right salt hits.
fn measure(key: Option<CacheDomainKey>) -> Option<WarmthView> {
    let shared = CacheDomainKey { owner: 7, domain: 42, shared: true }.salt(&auth_key());
    let hit = key.map(|k| k.salt(&auth_key())) == Some(shared);
    Some(warmth(&[0.0, if hit { 1.0 } else { 0.0 }], &[0.0]))
}

fn prefill_for(router: &mut Router, identity: Option<&RequestIdentity>) -> String {
    let (mut ids, mut events) = (IdSource::new(), ClampEvents::new());
    let now = at(NOW);
    let routed =
        router.route_with_identity(LONG_HEAD, identity, measure, now, ln, exp, &mut ids, &mut events);
    match routed.expect("route").0 {
        RoutePath::Disaggregated { prefill, .. } => {
            router.pool(Phase::Prefill)[prefill].label.clone()
        }
        other => panic!("expected disagg, got {other:?}"),
    }
}

#[test]
fn member_with_matching_content_routes_to_shared_warm_backend() {
    let (mut router, group, content) = router_with_shared_warmth();
    let identity = RequestIdentity { tenant: TenantId::new(2), group, content_fp: content };
    assert_eq!(prefill_for(&mut router, Some(&identity)), "pf-shared");
}

#[test]
fn non_member_does_not_benefit_from_shared_warmth() {
    let (mut router, group, content) = router_with_shared_warmth();
    let identity = RequestIdentity { tenant: TenantId::new(99), group, content_fp: content };
    assert_eq!(prefill_for(&mut router, Some(&identity)), "pf-cold");
}

#[test]
fn template_mismatch_does_not_benefit_from_shared_warmth() {
    let (mut router, group, _content) = router_with_shared_warmth();
    let identity = RequestIdentity {
        tenant: TenantId::new(2),
        group,
        content_fp: PrefixFingerprint::of(&auth_key(), b"different prompt"),
    };
    assert_eq!(prefill_for(&mut router, Some(&identity)), "pf-cold");
}

#[test]
fn missing_identity_or_registry_falls_back_to_plain_route() {
    let (mut router, _group, _content) = router_with_shared_warmth();
    let a = prefill_for(&mut router, None);
    let b = match route(&mut router, LONG_HEAD).expect("route") {
        RoutePath::Disaggregated { prefill, .. } => {
            router.pool(Phase::Prefill)[prefill].label.clone()
        }
        other => panic!("expected disagg, got {other:?}"),
    };
    assert_eq!(a, b);
    assert_eq!(b, "pf-cold");
}

#[test]
fn rdma_cost_shadow_records_on_disagg_handoff() {
    let spec = "pf0@n0/r0/cA,dc0@n1/r0/cA,dc1@n2/r1/cB";
    let topo = parse_topology_map(spec).unwrap();
    let pf = pool("pf0@127.0.0.1:9501@0.01", &topo);
    let dc = pool("dc0@127.0.0.1:9502@0.01,dc1@127.0.0.1:9503@0.01", &topo);
    let mut router = router(pf, dc).with_kv_pool(64 * 1024 * 1024, 128);
    let transport = ModeledRdmaTransport::new(parse_topology_map(spec).unwrap());

    let head = handoff_head(512, 128, 7);
    let s = signals(1, 512, Duration::from_millis(5));
    complete(&mut router, &s, head.as_bytes(), "pf0", &transport).expect("decode");

    let samples = router.rdma_cost_shadow_samples();
    assert_eq!(samples.len(), 1);
    assert_eq!(samples[0].pf_label, "pf0");
    assert!(samples[0].distance > 0);
    assert!(samples[0].analytic_transfer_ln.is_finite());
    let predicted = f(samples[0].analytic_transfer_ln).exp();
    let observed = f(samples[0].observed_transfer_secs);
    assert!((observed - predicted).abs() < 1e-9);

    let ratio = f(eval_transfer_ratio_median(&samples, exp));
    assert!((ratio - 1.0).abs() < 1e-3);
}

#[test]
fn rdma_cost_shadow_skips_colocated_handoff() {
    let topo = parse_topology_map("pf0@n0/r0/cA").unwrap();
    let spec = "pf0@127.0.0.1:9601@0.01";
    let mut router = router(pool(spec, &topo), pool(spec, &topo)).with_kv_pool(64 * 1024 * 1024, 128);
    let head = handoff_head(512, 128, 8);
    let s = signals(1, 512, Duration::from_millis(5));
    complete(&mut router, &s, head.as_bytes(), "pf0", &HeaderPassthroughTransport).expect("decode");
    assert!(router.rdma_cost_shadow_samples().is_empty());
}

#[test]
fn topology_decides_where_transfers_are_charged_by_it() {
    let topo = parse_topology_map("pf@n0/r0/cA,far@n1/r1/cB,near@n0/r0/cA").unwrap();
    let dc = pool("far@127.0.0.1:1@0.01,near@127.0.0.1:2@0.01", &topo);
    let mut router = router(pool("pf@127.0.0.1:3@0.01", &topo), dc)
        .with_kv_pool(1 << 60, 1 << 20)
        .with_rdma_routing(true);
    // A transfer of this size takes many seconds across clusters and within the node alike, so
    // the shorter base latency decides.
    let bytes = kv_breakdown(100_000, 1 << 20).kv_reserved;
    let head = format!("x-demiurge-kv-handle: 1\r\nx-demiurge-kv-bytes: {bytes}\r\n\r\n");
    let s = signals(1, 100_000, Duration::from_millis(1));
    let p = complete(&mut router, &s, head.as_bytes(), "pf", &HeaderPassthroughTransport)
        .expect("placed");
    assert_eq!(router.pool(p.phase)[p.backend].label, "near");
}

#[test]
fn mock_rdma_transport_records_fast_wall() {
    let none = TopologyMap::new();
    let mut router = router(
        pool("pf0@127.0.0.1:9101@0.01", &none),
        pool("dc0@127.0.0.1:9102@0.01", &none),
    )
    .with_kv_pool(64 * 1024 * 1024, 128);
    let head = handoff_head(512, 128, 9);
    let s = signals(1, 512, Duration::from_millis(50));
    complete(&mut router, &s, head.as_bytes(), "pf0", &MockRdmaTransport::new(25)).expect("decode");
    let m = router.handoffs().unwrap().transfer_metrics();
    assert_eq!(m.count, 1);
    assert_eq!(m.bytes_p50, kv_breakdown(512, 128).kv_reserved);
    assert_eq!(m.wall_us_p50, 25);
}

#[test]
fn corrector_shadow_records_on_prefill_complete() {
    let none = TopologyMap::new();
    let mut router = router(
        pool("pf0@127.0.0.1:9201@0.01", &none),
        pool("dc0@127.0.0.1:9202@0.01", &none),
    )
    .with_kv_pool(64 * 1024 * 1024, 128);
    let head = handoff_head(512, 128, 11);
    let s = signals(1, 512, Duration::from_millis(8));
    complete(&mut router, &s, head.as_bytes(), "pf0", &HeaderPassthroughTransport).expect("decode");
    let samples = router.corrector_shadow_samples();
    assert_eq!(samples.len(), 1);
    assert_eq!(samples[0].prompt_tokens, 512);
    assert!(samples[0].analytic_ln.is_finite());
    assert_eq!((samples[0].observed_us, samples[0].backend_label.as_str()), (8000, "dc0"));
}

#[test]
fn observed_prefill_wall_raises_effective_t_core() {
    let none = TopologyMap::new();
    let mut router = router(
        pool("pf0@127.0.0.1:9211@0.001", &none),
        pool("dc0@127.0.0.1:9212@0.01", &none),
    )
    .with_kv_pool(64 * 1024 * 1024, 128);
    let claimed_ln = f(router.pool(Phase::Prefill)[0].cost(ln).ln());

    let head = handoff_head(512, 128, 12);
    let s = signals(1, 512, Duration::from_millis(50));
    complete(&mut router, &s, head.as_bytes(), "pf0", &HeaderPassthroughTransport).expect("decode");

    let pf = &router.pool(Phase::Prefill)[0];
    assert!(
        f(pf.effective_base_seconds()) > 0.001,
        "ewma must lift effective base above under-claim"
    );
    assert!(
        f(pf.cost(ln).ln()) > claimed_ln,
        "observed wall must raise routing cost vs bare claim"
    );
}

#[test]
fn moving_average_weighs_the_newest_measurement() {
    let mut b = backend("pf", 0.001);
    b.note_observed_seconds(r(f64::NAN));
    b.note_observed_seconds(r(0.0));
    assert_eq!(f(b.effective_base_seconds()), 0.001);
    b.note_observed_seconds(r(0.05));
    assert_eq!(f(b.effective_base_seconds()), 0.05);
    b.note_observed_seconds(r(0.1));
    assert_eq!(f(b.effective_base_seconds()), 0.2 * 0.1 + (1.0 - 0.2) * 0.05);
    assert_eq!(f(backend("x", -1.0).effective_base_seconds()), f64::MAX);
}

#[test]
fn fast_path_ratio_tracks_colocated_routes() {
    let none = TopologyMap::new();
    let mut router = router(
        pool("pf0@127.0.0.1:9301@0.01", &none),
        pool("dc0@127.0.0.1:9302@0.01", &none),
    )
    .with_kv_pool(64 * 1024 * 1024, 128);
    let short = b"GET / HTTP/1.1\r\nHost: x\r\nX-Demiurge-Tokens: 64\r\n\r\n";
    route(&mut router, short).expect("route");
    let metrics = router.control_metrics(NOW, 0);
    assert_eq!(metrics.colocated_routes, 1);
    assert!(f(metrics.fast_path_ratio) > 0.9);
}

#[test]
fn corrector_shadow_train_and_eval() {
    let none = TopologyMap::new();
    let mut router = router(
        pool("pf0@127.0.0.1:9401@0.01", &none),
        pool("dc0@127.0.0.1:9402@0.01", &none),
    )
    .with_kv_pool(64 * 1024 * 1024, 128);
    let head = handoff_head(512, 128, 3);
    for i in 0..4 {
        let s = signals(i, 512, Duration::from_millis(10));
        let p = complete(&mut router, &s, head.as_bytes(), "pf0", &HeaderPassthroughTransport)
            .expect("decode");
        router.release_reservation(p.reservation.expect("held"));
    }
    let samples = router.corrector_shadow_samples();
    let delta = train_bounded_delta(&samples, exp, &mut ClampEvents::new());
    let goodput = f(eval_goodput_improvement(&samples, delta, ln, &mut ClampEvents::new()));
    assert!((1.0 - 0.20..=1.0 + 0.20).contains(&f(delta)));
    assert!((0.0..=1.0).contains(&goodput));
}

#[test]
fn banner_contains_listen_and_version() {
    let router = router(vec![backend("pf0", 0.01)], vec![backend("dc0", 0.02)]);
    let text = render_startup_banner(&router, "127.0.0.1:8080", None, "off", "0.1.0", false);
    assert!(text.contains("DEMIURGE ROUTER"));
    assert!(text.contains("127.0.0.1:8080"));
    assert!(text.contains("0.1.0"));
    assert!(text.contains("READY"));
    for line in text.lines() {
        assert_eq!(line.chars().count(), 76, "{line}");
    }
    assert!(text.contains("userspace token bucket · burst 4096"));
    assert!(text.contains("shadow"));
    assert!(text.contains("1 backend "));
}

#[test]
fn banner_renders_kv_pool_when_configured() {
    let router = router(vec![backend("pf", 0.01)], vec![backend("dc", 0.02)])
        .with_kv_pool(128 * 1024 * 1024, 128);
    let text = render_startup_banner(&router, "127.0.0.1:9090", None, "off", "0.1.0", false);
    assert!(text.contains("kv pool"));
    assert!(text.contains("128.0 MiB"));
}

#[test]
fn banner_shows_shares_and_kernel_in_colour() {
    let mut router = router(vec![], vec![]).with_rebalancer_actuation(true, NOW * 1_000_000);
    router.confirm_kernel_admit(7);
    let text = render_startup_banner(&router, "x", Some("eth0"), "production TCP proxy", "9", true);
    assert!(text.contains("actuated · π=0.500"));
    assert!(text.contains("attached · eth0"));
    assert!(text.contains("0 backends"));
    assert!(text.contains("\x1b[1;97mDEMIURGE ROUTER\x1b[0m"));
    for line in text.lines() {
        assert_eq!(visible_len(line), 76, "{line}");
    }
    assert_eq!(visible_len("a\x1b[1mb\x1b[0m"), 2);
}

#[test]
fn byte_counts_have_a_suitable_unit() {
    for bytes in [0u64, 1, 1023, 1024, 1_048_575, 1_048_576, 1_100_000, 157_286_400, 5 << 30,
        (5 << 30) + 1, (3 << 30) + (7 << 20), u64::MAX, (1 << 53) + 1]
    {
        const MIB: u64 = 1024 * 1024;
        let want = if bytes >= 1024 * MIB && bytes % MIB == 0 {
            format!("{} GiB", bytes / (1024 * MIB))
        } else if bytes >= MIB {
            format!("{:.1} MiB", bytes as f64 / MIB as f64)
        } else if bytes >= 1024 {
            format!("{} KiB", bytes / 1024)
        } else {
            format!("{bytes} B")
        };
        assert_eq!(format_bytes(bytes), want);
    }
    assert!(!banner_enabled(Some("no"), true) && banner_enabled(Some("1"), false));
    assert!(banner_enabled(Some("maybe"), true) && !banner_enabled(None, false));
}

#[test]
fn one_line_stands_for_the_banner() {
    let mut router = router(vec![backend("pf", 0.01)], vec![]).with_admit_mode(AdmitMode::KernelXdp);
    assert_eq!(
        render_startup_line(&router, "0.0.0.0:80", true, "1.2.3"),
        "demiurge-router v1.2.3 listening on 0.0.0.0:80 (prefill=1, decode=0, admit=KernelXdp, \
         xdp=false, io_uring=true)"
    );
    router.confirm_kernel_admit(1);
    assert!(render_startup_line(&router, "x", false, "1").contains("xdp=true, io_uring=false"));
    assert!(quiet_mode(Some("yes")) && !quiet_mode(Some("0")) && !quiet_mode(None));
    assert!(color_enabled(None, true) && !color_enabled(Some("1"), true));
    assert!(color_enabled(Some("yes"), true) && !color_enabled(None, false));
}

#[test]
fn abandoned_reservations_are_reclaimed() {
    let mut router =
        router(vec![backend("pf", 0.01)], vec![backend("dc", 0.02)]).with_kv_pool(1_000_000, 128);
    let head = handoff_head(32, 128, 9);
    let s = signals(1, 32, Duration::from_micros(1));
    complete(&mut router, &s, head.as_bytes(), "pf", &HeaderPassthroughTransport).expect("placed");
    let taken = at(NOW).now_ns;
    assert_eq!(router.reclaim_expired(taken + 600_000_000_000 - 1), 0);
    assert!(reserved(&router) > 0);
    assert_eq!(router.reclaim_expired(taken + 600_000_000_000), 1);
    assert_eq!(reserved(&router), 0);
}

#[test]
fn busier_or_slower_backends_are_never_cheaper() {
    let mut b = backend("a", 0.02);
    let mut last = f64::NEG_INFINITY;
    for _ in 0..50 {
        let now = f(b.cost(ln).ln());
        assert!(now > last);
        last = now;
        b.incr_inflight();
    }
    b.decr_inflight();
    assert_eq!(f(b.cost(ln).ln()), last);
    assert!(f(backend("slow", 0.03).cost(ln).ln()) > f(backend("fast", 0.02).cost(ln).ln()));
    let broken = f(backend("broken", f64::NAN).cost(ln).ln());
    assert!(broken > f(backend("slow", 1e300).cost(ln).ln()));
}

#[test]
fn harden_hybrid_admit_mode_matrix() {
    assert!(AdmitMode::Userspace.uses_userspace_admit(false));
    assert!(AdmitMode::Userspace.uses_userspace_admit(true));
    assert!(!AdmitMode::KernelXdp.uses_userspace_admit(true));
    assert!(AdmitMode::Hybrid.uses_userspace_admit(false));
    assert!(!AdmitMode::Hybrid.uses_userspace_admit(true));

    let mut router = router(vec![backend("pf", 0.01)], vec![]).with_admit_mode(AdmitMode::Hybrid);
    assert!(!router.kernel_admit_attached());
    router.sync_admit_capacity(2);
    assert_eq!(router.admit_conn(), Ok(true));
    assert_eq!(router.admit_bucket().available(), 1);
}

#[test]
fn transfers_are_recorded_as_reported() {
    for (transport, wall) in [(MockRdmaTransport::new(25), 25), (MockRdmaTransport::new(7), 7)] {
        let mut router = router(vec![backend("pf", 0.01)], vec![backend("dc", 0.02)])
            .with_kv_pool(1_000_000, 128);
        let s = signals(1, 32, Duration::from_millis(3));
        let head = handoff_head(32, 128, 9);
        complete(&mut router, &s, head.as_bytes(), "pf", &transport).expect("placed");
        let m = router.handoffs().unwrap().transfer_metrics();
        assert_eq!((m.count, m.wall_us_p50), (1, wall));
    }
}

#[test]
fn unusable_times_are_counted() {
    let mut router = router(
        vec![backend("a", 0.02), backend("b", f64::MAX), backend("c", 0.02)],
        vec![backend("d", f64::MAX), backend("e", 0.02)],
    )
    .with_rebalancer_actuation(true, NOW * 1_000_000);
    let pressure = PoolPressure { q_prefill: r(0.1), q_decode: r(0.9), ..PoolPressure::default() };
    router.actuate_from_trace_pressure(pressure, at(NOW));
    // With a tenth of the capacity the longest time is scaled beyond what can be used.
    let head = b"GET /long/600 HTTP/1.1\r\n\r\n";
    let mut events = ClampEvents::new();
    let mut ids = IdSource::new();
    for (strength, counted) in [(0.5, 1), (0.0, 1), (0.5, 2)] {
        let w = warmth(&[0.5, strength, 0.5], &[0.0, 0.0]);
        router.route(head, Some(&w), at(NOW), ln, exp, &mut ids, &mut events).expect("route");
        assert_eq!(events.count, counted);
    }
    let pressure = PoolPressure { q_prefill: r(0.9), q_decode: r(0.1), ..PoolPressure::default() };
    router.actuate_from_trace_pressure(pressure, at(NOW));
    let mut events = ClampEvents::new();
    let s = signals(1, 600, Duration::from_micros(1));
    let t = HeaderPassthroughTransport;
    router
        .on_prefill_complete(&s, b"", "a", &t, None, at(NOW), ln, exp, &mut events)
        .expect("placed");
    assert_eq!(events.count, 1);
}

#[test]
fn routers_of_one_process_never_share_an_id() {
    let mut ids = IdSource::new();
    let mut one = router(vec![backend("pf", 0.01)], vec![]);
    let mut other = router(vec![backend("pf", 0.01)], vec![]);
    let head = b"GET /long/600 HTTP/1.1\r\n\r\n";
    let a = admit_disaggregated(route_from(&mut one, head, &mut ids).unwrap()).unwrap();
    let b = admit_disaggregated(route_from(&mut other, head, &mut ids).unwrap()).unwrap();
    assert_eq!((a.1.raw(), b.1.raw()), (1, 2));
}

#[test]
fn first_of_the_cheapest_is_selected() {
    let pool = vec![backend("a", 0.03), backend("b", 0.02), backend("c", 0.02)];
    let i = select(&pool, ln).unwrap();
    assert_eq!(i, 1);
    let costs: Vec<f64> = pool.iter().map(|b| f(b.cost_with_barriers(&[], ln, &mut ClampEvents::new()).ln())).collect();
    assert!(costs.iter().all(|&c| costs[i] <= c) && costs[..i].iter().all(|&c| costs[i] < c));
}

#[test]
fn colours_leave_the_text_as_it_is() {
    let router = router(vec![backend("pf", 0.01)], vec![backend("dc", 0.02)])
        .with_kv_pool(u64::MAX, 128);
    let listen = "x".repeat(58);
    let render = |color| {
        render_startup_banner(&router, &listen, None, "off", "0.1.0", color)
    };
    let mut plain = String::new();
    let mut escaped = false;
    for c in render(true).chars() {
        if escaped {
            escaped = c != 'm';
        } else if c == '\x1b' {
            escaped = true;
        } else {
            plain.push(c);
        }
    }
    assert_eq!(plain, render(false));
    assert!(plain.lines().all(|l| l.chars().count() == 76));
    assert!(plain.contains(&listen) && plain.contains("kv pool"));
}
