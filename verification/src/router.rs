//! The router: classifying requests, placing prefill and decode, and the control tick.
//!
//! The router holds everything a decision depends on. Measured inputs (warmth, clocks, whether the
//! kernel program is alive) are handed in with each call.

use vstd::prelude::*;
use crate::admission::{
    admit_capacity_for_pi, at_least_one, scaled_capacity, AdmitBucket, AdmitMode, BucketState,
    ShedReason, XdpAdmitConfig,
};
use crate::auth::{domain_key, CacheDomainKey, Group, SharedPrefixGroupRegistry};
use crate::backend::{
    barrier_choice_clamps, barrier_logs, choice, chosen, decode_clamps, decode_logs, pool_view,
    prefill_choice_clamps, prefill_logs, select_by_queue, select_decode_with_pi,
    select_prefill_with_identity_pi, select_with_barriers_pi, warmth_reward, Backend, BackendState,
    DecodePlacementCtx, PlacementView,
};
use crate::binary64::{larger, of_nat, one, quotient, seconds_of_nanos, sum, zero, Real, ONE_BITS};
use crate::elementary::{evaluate, is_function, value_at};
use crate::factors::{counts_add_up, penalties, BarrierFactor, ClampEvents};
use crate::handoff::{
    announced, fresh_handoffs, micros, parse_prefill_handoff, whole_micros, Handoff,
    HandoffDescriptor, HandoffRegistry, HandoffState, HandoffTransport, TransferOutcome,
};
use crate::http::{
    decode_only, estimate_prompt_tokens, estimated_tokens, is_decode_only, RequestIdentity,
};
use crate::ids::{IdSource, RequestId};
use crate::kv::{
    footprint_countable, kv_breakdown, reserved_bytes, saturating_mul_u64, saturating_product,
};
use crate::ledger::{
    fresh_ledger, push_bounded, wrapping_next, LedgerState, ReservationGuard, ReservationLedger,
};
use crate::pairing::{
    live_target, pair_target, pairing_regret_targets, regret, regret_clamps, targets, PairTarget,
    TargetView,
};
use crate::params::{
    DATAPLANE_ADMIT_BURST, DATAPLANE_RCU_HEARTBEAT_MS, DATAPLANE_RCU_STALE_ALERT_MS,
    KV_HANDOFF_BYTE_CEILING_MULTIPLE, ROUTING_SHORT_CONTEXT_TOKENS,
    ROUTING_SHORT_CONTEXT_WARMTH_OVERRIDE_BITS, ROUTING_TRANSFER_PENALTY_BITS,
};
use crate::predictor::{LengthPredictor, MAX_SAMPLES};
use crate::rcu::{age, is_share, lemma_share, share, DataPlaneSnapshot, RcuRoutingTable};
use crate::rebalancer::{
    export_pool_pressure, gossip_pressure, no_pressure, ready_since, to_share, wanted_share,
    PoolGossip, PoolPressure, PoolRebalancer, RebalancerMode, RebalancerState, HALF_BITS,
};
use crate::selection::{lowest_number, total};
use crate::shadow::{
    prefill_rows, transfer_rows, CorrectorShadowLog, CorrectorShadowSample, PrefillRow,
    RdmaCostShadowLog, RdmaCostShadowSample, TransferRow,
};
use crate::stats::percentile_of;
use crate::text::{joined, same_text};
use crate::topology::{
    distance, nowhere, rdma_distance, rdma_transfer_ln, transfer_log, Place, TopologyId,
};

verus! {

/// How many shadow samples are kept of each kind.
pub const SHADOW_SAMPLES: usize = 4096;

/// Queue length at which pressure is one half (16), as a bit pattern.
pub const QUEUE_MIDPOINT_BITS: u64 = 0x4030_0000_0000_0000;

/// The two phases of a request.
#[derive(Debug, Clone, Copy, PartialEq, Eq, Structural)]
pub enum Phase {
    Prefill,
    Decode,
}

impl Phase {
    /// The pool of the colocated path: prefill, unless the environment says decode.
    pub fn colocated(value: Option<&str>) -> (r: Phase)
        ensures
            r == if value matches Some(v) && v@ == "decode"@ {
                Phase::Decode
            } else {
                Phase::Prefill
            },
    {
        match value {
            Some(v) => if same_text(v, "decode") {
                Phase::Decode
            } else {
                Phase::Prefill
            },
            None => Phase::Prefill,
        }
    }
}

/// What is known when prefill has finished.
#[derive(Debug, Clone, Copy)]
pub struct PrefillSignals {
    pub request_id: RequestId,
    pub prompt_tokens: u64,
    /// Time that prefill took, hand-off headers included.
    pub prefill_wall_ns: u128,
}

/// Where a request goes. Backends are named by their place in their pool.
#[derive(Debug, Clone, Copy, PartialEq, Eq, Structural)]
pub enum RoutePath {
    /// Short prompt: prefill and decode on one backend.
    Colocated { phase: Phase, backend: usize },
    /// Long or unknown prompt: prefill first, decode when it has finished.
    Disaggregated { prefill: usize, request_id: RequestId, prompt_tokens: u64 },
    /// Decode alone.
    DecodeOnly { backend: usize },
}

/// What a disaggregated request does: its prefill backend, its handle and its prompt length.
/// Any other path is refused.
pub fn admit_disaggregated(path: RoutePath) -> (r: Result<(usize, RequestId, u64), RouteError>)
    ensures
        match path {
            RoutePath::Disaggregated { prefill, request_id, prompt_tokens } => r == Ok::<
                (usize, RequestId, u64),
                RouteError,
            >((prefill, request_id, prompt_tokens)),
            _ => r matches Err(e) && e is NoBackend,
        },
{
    match path {
        RoutePath::Disaggregated { prefill, request_id, prompt_tokens } => {
            Ok((prefill, request_id, prompt_tokens))
        },
        RoutePath::Colocated { .. } => Err(RouteError::NoBackend),
        RoutePath::DecodeOnly { .. } => Err(RouteError::NoBackend),
    }
}

/// Why a request was not routed.
#[derive(Debug, PartialEq, Eq)]
pub enum RouteError {
    NoBackend,
    HandoffMissing,
    KvAdmitRejected,
    /// Prefill failed; the message is kept for the log.
    PrefillIo(String),
}

impl RouteError {
    /// The message shown to operators.
    pub open spec fn text(self) -> Seq<char> {
        match self {
            RouteError::NoBackend => "no backend available for route"@,
            RouteError::HandoffMissing => "prefill completed without KV hand-off"@,
            RouteError::KvAdmitRejected => "decode pool rejected KV reservation"@,
            RouteError::PrefillIo(msg) => "prefill I/O error: "@ + msg@,
        }
    }

    /// The message shown to operators.
    pub fn message(&self) -> (r: String)
        ensures
            r@ == self.text(),
    {
        match self {
            RouteError::NoBackend => "no backend available for route".to_owned(),
            RouteError::HandoffMissing => "prefill completed without KV hand-off".to_owned(),
            RouteError::KvAdmitRejected => "decode pool rejected KV reservation".to_owned(),
            RouteError::PrefillIo(msg) => {
                joined("prefill I/O error: ", msg.as_str())
            },
        }
    }
}

/// Warmth and gossip as measured for one request, one entry for each backend.
#[derive(Debug)]
pub struct WarmthView {
    /// Whether the snapshot knows the prefill backend at all.
    pub prefill_known: Vec<bool>,
    /// Warmth of the prefill backends.
    pub prefill: Vec<Real>,
    /// Warmth of the decode backends.
    pub decode: Vec<Real>,
    /// Warmth of the prefill backends if they had to decode.
    pub prefill_as_decode: Vec<Real>,
    pub gossip: PoolGossip,
}

/// Clocks and the state of the kernel program at the time of a call.
#[derive(Debug, Clone, Copy)]
pub struct Moment {
    /// Wall clock.
    pub now_ms: u64,
    /// Monotonic clock.
    pub now_ns: u64,
    /// Whether the kernel program is still attached, where one was.
    pub kernel_alive: bool,
}

/// What a control tick asks of the kernel program.
#[derive(Debug, Clone, Copy, PartialEq, Eq, Structural)]
pub struct TickOutcome {
    /// Refill the kernel bucket at this capacity.
    pub kernel_capacity: Option<u64>,
    /// The kernel program is gone; the bucket takes over.
    pub kernel_lost: bool,
}

/// Nothing to do.
pub open spec fn idle_tick() -> TickOutcome {
    TickOutcome { kernel_capacity: None, kernel_lost: false }
}

/// Control-plane figures.
#[derive(Debug, Clone, Copy)]
pub struct ControlMetrics {
    pub pi: Real,
    pub pi_star: Real,
    pub pairing_regret_mean: Real,
    pub pairing_regret_samples: u64,
    pub predictor_p90_tokens: u64,
    pub dataplane_pi: Real,
    pub dataplane_age_ms: u64,
    pub rcu_stale: bool,
    pub rcu_stale_alert_ms: u64,
    pub admit_shed_total: u64,
    /// Share of requests on the colocated path.
    pub fast_path_ratio: Real,
    pub colocated_routes: u64,
    pub disagg_routes: u64,
    pub fastpath_misroute_mean: Real,
    pub fastpath_misroute_samples: u64,
    pub corrector_shadow_samples: u64,
    pub rdma_cost_shadow_samples: u64,
}

#[derive(Debug)]
struct ControlPlane {
    rebalancer: PoolRebalancer,
    predictor: LengthPredictor,
    regret_sum: Real,
    regret_samples: u64,
    last_pi_star: Real,
    corrector_shadow: CorrectorShadowLog,
    rdma_cost_shadow: RdmaCostShadowLog,
    fastpath_misroute_sum: Real,
    fastpath_misroute_samples: u64,
}

/// The control plane, as the contracts see it.
pub struct ControlState {
    pub rebalancer: RebalancerState,
    pub predictor: Seq<u64>,
    pub regret_sum: Real,
    pub regret_samples: u64,
    pub last_pi_star: Real,
    pub corrector_shadow: Seq<PrefillRow>,
    pub rdma_cost_shadow: Seq<TransferRow>,
    pub misroute_sum: Real,
    pub misroute_samples: u64,
}

impl View for ControlPlane {
    type V = ControlState;

    closed spec fn view(&self) -> ControlState {
        ControlState {
            rebalancer: self.rebalancer@,
            predictor: self.predictor@,
            regret_sum: self.regret_sum,
            regret_samples: self.regret_samples,
            last_pi_star: self.last_pi_star,
            corrector_shadow: prefill_rows(self.corrector_shadow@),
            rdma_cost_shadow: transfer_rows(self.rdma_cost_shadow@),
            misroute_sum: self.fastpath_misroute_sum,
            misroute_samples: self.fastpath_misroute_samples,
        }
    }
}

/// The router.
#[derive(Debug)]
pub struct Router {
    prefill: Vec<Backend>,
    decode: Vec<Backend>,
    ledger: Option<ReservationLedger>,
    handoffs: Option<HandoffRegistry>,
    bytes_per_token: u64,
    control: ControlPlane,
    dataplane: RcuRoutingTable,
    bucket: AdmitBucket,
    admit_mode: AdmitMode,
    kernel_attached: bool,
    last_admit_capacity: u64,
    rebalancer_actuation: bool,
    colocated_routes: u64,
    disagg_routes: u64,
    rdma_routing: bool,
    colocated_phase: Phase,
    cache_registry: Option<SharedPrefixGroupRegistry>,
}

/// The router, as the contracts see it.
pub struct RouterState {
    pub prefill: Seq<BackendState>,
    pub decode: Seq<BackendState>,
    pub ledger: Option<LedgerState>,
    pub handoffs: Option<HandoffState>,
    pub bytes_per_token: u64,
    pub control: ControlState,
    pub current: DataPlaneSnapshot,
    pub bucket: BucketState,
    pub admit_mode: AdmitMode,
    pub kernel_attached: bool,
    pub last_admit_capacity: u64,
    pub actuation: bool,
    pub colocated_routes: u64,
    pub disagg_routes: u64,
    pub rdma_routing: bool,
    pub colocated_phase: Phase,
    pub groups: Option<Map<u64, Group>>,
}

impl View for Router {
    type V = RouterState;

    closed spec fn view(&self) -> RouterState {
        RouterState {
            prefill: pool_view(self.prefill@),
            decode: pool_view(self.decode@),
            ledger: match self.ledger {
                Some(l) => Some(l@),
                None => None,
            },
            handoffs: match self.handoffs {
                Some(h) => Some(h@),
                None => None,
            },
            bytes_per_token: self.bytes_per_token,
            control: self.control@,
            current: self.dataplane.current(),
            bucket: self.bucket@,
            admit_mode: self.admit_mode,
            kernel_attached: self.kernel_attached,
            last_admit_capacity: self.last_admit_capacity,
            actuation: self.rebalancer_actuation,
            colocated_routes: self.colocated_routes,
            disagg_routes: self.disagg_routes,
            rdma_routing: self.rdma_routing,
            colocated_phase: self.colocated_phase,
            groups: match self.cache_registry {
                Some(r) => Some(r@),
                None => None,
            },
        }
    }
}

/// The larger queue of the rest and this one.
pub open spec fn longest_queue(pool: Seq<BackendState>) -> usize
    decreases pool.len(),
{
    if pool.len() == 0 {
        0
    } else {
        let before = longest_queue(pool.drop_last());
        if before < pool.last().inflight {
            pool.last().inflight
        } else {
            before
        }
    }
}

/// Pressure of a pool by its longest queue.
pub open spec fn queue_pressure(pool: Seq<BackendState>) -> Real {
    let longest = of_nat(longest_queue(pool) as nat);
    share(quotient(longest, sum(longest, Real { bits: QUEUE_MIDPOINT_BITS })))
}

/// Whether measured warmth has an entry for each backend.
pub open spec fn fits(w: Option<&WarmthView>, prefill: nat, decode: nat) -> bool {
    w matches Some(v) ==> {
        &&& v.prefill_known@.len() == prefill
        &&& v.prefill@.len() == prefill
        &&& v.prefill_as_decode@.len() == prefill
        &&& v.decode@.len() == decode
    }
}

/// Each value as a measured strength.
pub open spec fn measured(values: Seq<Real>) -> Seq<Option<Real>> {
    values.map_values(|x: Real| Some(x))
}

/// The strengths of the prefill pool.
pub open spec fn prefill_strengths(w: Option<&WarmthView>) -> Option<Seq<Option<Real>>> {
    match w {
        Some(v) => Some(measured(v.prefill@)),
        None => None,
    }
}

/// The strengths of the decode pool.
pub open spec fn decode_strengths(w: Option<&WarmthView>) -> Option<Seq<Option<Real>>> {
    match w {
        Some(v) => Some(measured(v.decode@)),
        None => None,
    }
}

/// One entry of optional strengths.
pub open spec fn entry(strengths: Option<Seq<Option<Real>>>, i: int) -> Option<Real> {
    match strengths {
        Some(s) => s[i],
        None => None,
    }
}

/// The warmest of some backends at or above the threshold; of several the first.
pub open spec fn warmest(strengths: Seq<Real>) -> Option<int>
    decreases strengths.len(),
{
    if strengths.len() == 0 {
        None
    } else {
        let before = warmest(strengths.drop_last());
        let s = strengths.last();
        if s.below(Real { bits: ROUTING_SHORT_CONTEXT_WARMTH_OVERRIDE_BITS }) {
            before
        } else {
            match before {
                Some(i) => if strengths[i].below(s) {
                    Some(strengths.len() - 1)
                } else {
                    before
                },
                None => Some(strengths.len() - 1),
            }
        }
    }
}

/// The backend whose cache is warm enough to leave the fast path; none if the snapshot does not
/// know the whole pool.
pub open spec fn override_target(w: Option<&WarmthView>) -> Option<int> {
    match w {
        Some(v) => if exists|i: int| 0 <= i < v.prefill_known@.len() && !v.prefill_known@[i] {
            None
        } else {
            warmest(v.prefill@)
        },
        None => None,
    }
}

/// Why a finished prefill does not continue.
pub enum Refusal {
    NoBackend,
    HandoffMissing,
    KvAdmitRejected,
}

/// Whether an error is a given refusal.
pub open spec fn refuses(e: RouteError, why: Refusal) -> bool {
    match why {
        Refusal::NoBackend => e is NoBackend,
        Refusal::HandoffMissing => e is HandoffMissing,
        Refusal::KvAdmitRejected => e is KvAdmitRejected,
    }
}

/// A pool after a measurement for the first backend with a label.
pub open spec fn noted(pool: Seq<BackendState>, label: Seq<char>, secs: Real) -> Seq<BackendState>
    decreases pool.len(),
{
    if pool.len() == 0 {
        pool
    } else if pool[0].label == label {
        pool.update(0, pool[0].after_measurement(secs))
    } else {
        seq![pool[0]] + noted(pool.drop_first(), label, secs)
    }
}

/// The place of the first backend with a label.
pub open spec fn place_in(pool: Seq<BackendState>, label: Seq<char>) -> Option<Place>
    decreases pool.len(),
{
    if pool.len() == 0 {
        None
    } else if pool[0].label == label {
        Some(pool[0].place)
    } else {
        place_in(pool.drop_first(), label)
    }
}

impl RouterState {
    /// The backends of a pool.
    pub open spec fn pool(self, phase: Phase) -> Seq<BackendState> {
        match phase {
            Phase::Prefill => self.prefill,
            Phase::Decode => self.decode,
        }
    }

    /// Requests routed so far.
    pub open spec fn routed_total(self) -> u64 {
        if self.colocated_routes + self.disagg_routes > u64::MAX {
            u64::MAX
        } else {
            (self.colocated_routes + self.disagg_routes) as u64
        }
    }

    /// The share of requests on the colocated path; `otherwise` before the first request.
    pub open spec fn colocated_share(self, otherwise: Real) -> Real {
        if self.routed_total() > 0 {
            quotient(of_nat(self.colocated_routes as nat), of_nat(self.routed_total() as nat))
        } else {
            otherwise
        }
    }

    /// Pressure on the pools: gossip where there is any, raised to what the router sees itself.
    #[verifier::opaque]
    pub open spec fn pressure(self, w: Option<&WarmthView>, fp_share: Real) -> PoolPressure {
        let base = match w {
            Some(v) => gossip_pressure(v.gossip, fp_share),
            None => no_pressure(),
        };
        PoolPressure {
            q_prefill: larger(base.q_prefill, queue_pressure(self.prefill)),
            q_decode: larger(base.q_decode, queue_pressure(self.decode)),
            kv_decode: match self.ledger {
                Some(l) => larger(
                    base.kv_decode,
                    share(
                        quotient(
                            of_nat(l.reserved()),
                            of_nat(at_least_one(l.capacity) as nat),
                        ),
                    ),
                ),
                None => base.kv_decode,
            },
            fp_share: share(fp_share),
            ..base
        }
    }

    /// The router after the bucket was refilled for a share, unless its size stays the same.
    pub open spec fn synced(self, pi: Real) -> (RouterState, Option<u64>) {
        let cap = scaled_capacity(DATAPLANE_ADMIT_BURST, pi);
        if cap != self.last_admit_capacity {
            (
                RouterState {
                    last_admit_capacity: cap,
                    bucket: BucketState {
                        tokens: at_least_one(cap),
                        capacity: at_least_one(cap),
                        ..self.bucket
                    },
                    ..self
                },
                Some(at_least_one(cap)),
            )
        } else {
            (self, None)
        }
    }

    /// The router after a share was published under the next generation.
    pub open spec fn published(self, pi: Real, now_ms: u64) -> RouterState {
        RouterState {
            current: DataPlaneSnapshot {
                generation: if self.current.generation == u64::MAX {
                    u64::MAX
                } else {
                    (self.current.generation + 1) as u64
                },
                pi: share(pi),
                published_at_ms: now_ms,
            },
            ..self
        }
    }

    /// Whether a tick looks at pool shares at all.
    pub open spec fn rebalances(self, sample: bool, now_ms: u64) -> bool {
        sample || self.actuation || age(self.current, now_ms) >= DATAPLANE_RCU_HEARTBEAT_MS
    }

    /// The router after looking at the pressure; a new share is published where shares are applied.
    #[verifier::opaque]
    pub open spec fn after_rebalance(self, s: PoolPressure, m: Moment) -> (
        RouterState,
        Option<u64>,
    ) {
        let updated = RouterState {
            control: ControlState {
                rebalancer: self.control.rebalancer.after_update(s, m.now_ns),
                last_pi_star: wanted_share(self.control.rebalancer.pi, s),
                ..self.control
            },
            ..self
        };
        if !self.actuation {
            (updated, None)
        } else if self.control.rebalancer.applies(s, m.now_ns) {
            updated.published(updated.control.rebalancer.pi, m.now_ms).synced(
                updated.control.rebalancer.pi,
            )
        } else {
            updated.synced(updated.control.rebalancer.pi)
        }
    }

    /// The router after its heartbeat: an old snapshot is published again, and a kernel program
    /// that is gone is forgotten.
    #[verifier::opaque]
    pub open spec fn after_heartbeat(self, m: Moment) -> (RouterState, TickOutcome) {
        if age(self.current, m.now_ms) < DATAPLANE_RCU_HEARTBEAT_MS {
            (self, idle_tick())
        } else {
            let pi = self.control.rebalancer.pi;
            let lost = self.kernel_attached && !m.kernel_alive;
            let fresh = RouterState {
                kernel_attached: self.kernel_attached && m.kernel_alive,
                ..self.published(pi, m.now_ms)
            };
            if self.actuation || fresh.kernel_attached {
                let (done, cap) = fresh.synced(pi);
                (done, TickOutcome { kernel_capacity: cap, kernel_lost: lost })
            } else {
                (fresh, TickOutcome { kernel_capacity: None, kernel_lost: lost })
            }
        }
    }

    /// The prefill pool priced for pairing.
    pub open spec fn prefill_targets<F: Fn(Real) -> Real>(
        self,
        w: Option<&WarmthView>,
        ln: F,
    ) -> Seq<TargetView> {
        Seq::new(
            self.prefill.len(),
            |i: int|
                live_target(
                    self.prefill[i],
                    entry(prefill_strengths(w), i),
                    None,
                    Real { bits: ROUTING_TRANSFER_PENALTY_BITS },
                    ln,
                ),
        )
    }

    /// The decode pool priced for pairing.
    pub open spec fn decode_targets<F: Fn(Real) -> Real>(
        self,
        w: Option<&WarmthView>,
        ln: F,
    ) -> Seq<TargetView> {
        Seq::new(
            self.decode.len(),
            |i: int|
                live_target(
                    self.decode[i],
                    None,
                    entry(decode_strengths(w), i),
                    Real { bits: ROUTING_TRANSFER_PENALTY_BITS },
                    ln,
                ),
        )
    }

    /// The router after one sample of pairing regret.
    #[verifier::opaque]
    pub open spec fn after_regret<F: Fn(Real) -> Real, G: Fn(Real) -> Real>(
        self,
        w: Option<&WarmthView>,
        ln: F,
        exp: G,
    ) -> RouterState {
        if self.prefill.len() == 0 || self.decode.len() == 0 {
            self
        } else {
            RouterState {
                control: ControlState {
                    regret_sum: sum(
                        self.control.regret_sum,
                        regret(self.prefill_targets(w, ln), self.decode_targets(w, ln), exp),
                    ),
                    regret_samples: wrapping_next(self.control.regret_samples),
                    ..self.control
                },
                ..self
            }
        }
    }

    /// The router after a prompt length was recorded.
    pub open spec fn after_prompt(self, tokens: Option<u64>) -> RouterState {
        match tokens {
            Some(t) => RouterState {
                control: ControlState {
                    predictor: push_bounded(self.control.predictor, MAX_SAMPLES as nat, t),
                    ..self.control
                },
                ..self
            },
            None => self,
        }
    }

    /// The router after a control tick, and what the tick asks of the kernel program.
    pub open spec fn ticked<F: Fn(Real) -> Real, G: Fn(Real) -> Real>(
        self,
        tokens: Option<u64>,
        sample: bool,
        m: Moment,
        w: Option<&WarmthView>,
        ln: F,
        exp: G,
    ) -> (RouterState, TickOutcome) {
        let recorded = self.after_prompt(tokens);
        if !self.rebalances(sample, m.now_ms) {
            (recorded, idle_tick())
        } else {
            let s = recorded.pressure(
                w,
                recorded.colocated_share(Real { bits: HALF_BITS }),
            );
            let (balanced, first) = recorded.after_rebalance(s, m);
            let (beaten, beat) = balanced.after_heartbeat(m);
            let outcome = TickOutcome {
                kernel_capacity: if beat.kernel_capacity is Some {
                    beat.kernel_capacity
                } else {
                    first
                },
                kernel_lost: beat.kernel_lost,
            };
            if sample && tokens is Some {
                (beaten.after_regret(w, ln, exp), outcome)
            } else {
                (beaten, outcome)
            }
        }
    }

    /// The cheapest backend of a pool by queue and share.
    pub open spec fn cheapest<F: Fn(Real) -> Real>(self, phase: Phase, ln: F) -> Option<int> {
        choice(
            barrier_logs(
                self.pool(phase),
                ln,
                Seq::empty(),
                self.current.pi,
                phase == Phase::Prefill,
            ),
        )
    }

    /// Where a request goes; none if there is no backend for it. One that goes through prefill
    /// takes the given id.
    pub open spec fn routed<F: Fn(Real) -> Real>(
        self,
        head: Seq<u8>,
        w: Option<&WarmthView>,
        ln: F,
        id: u64,
    ) -> Option<RoutePath> {
        let tokens = estimated_tokens(head);
        if decode_only(head) {
            match self.cheapest(Phase::Decode, ln) {
                Some(i) => Some(RoutePath::DecodeOnly { backend: i as usize }),
                None => None,
            }
        } else if tokens <= ROUTING_SHORT_CONTEXT_TOKENS {
            match override_target(w) {
                Some(i) => Some(self.disaggregated(i, tokens, id)),
                None => match self.cheapest(self.colocated_phase, ln) {
                    Some(i) => Some(
                        RoutePath::Colocated { phase: self.colocated_phase, backend: i as usize },
                    ),
                    None => None,
                },
            }
        } else {
            match choice(
                prefill_logs(self.prefill, ln, prefill_strengths(w), self.current.pi),
            ) {
                Some(i) => Some(self.disaggregated(i, tokens, id)),
                None => None,
            }
        }
    }

    /// The path through prefill on a backend under a request id.
    pub open spec fn disaggregated(self, prefill: int, tokens: u64, id: u64) -> RoutePath {
        RoutePath::Disaggregated {
            prefill: prefill as usize,
            request_id: RequestId { id },
            prompt_tokens: tokens,
        }
    }

    /// The router after a prompt just below the threshold went through prefill.
    pub open spec fn after_misroute(self, tokens: u64) -> RouterState {
        if tokens <= ROUTING_SHORT_CONTEXT_TOKENS && tokens * 100 / (
        ROUTING_SHORT_CONTEXT_TOKENS as int) >= 80 {
            RouterState {
                control: ControlState {
                    misroute_sum: sum(
                        self.control.misroute_sum,
                        share(
                            quotient(
                                of_nat(tokens as nat),
                                of_nat(ROUTING_SHORT_CONTEXT_TOKENS as nat),
                            ),
                        ),
                    ),
                    misroute_samples: wrapping_next(self.control.misroute_samples),
                    ..self.control
                },
                ..self
            }
        } else {
            self
        }
    }

    /// The router after a request took a path, before its control tick.
    pub open spec fn after_path(self, path: RoutePath) -> RouterState {
        match path {
            RoutePath::Colocated { .. } => RouterState {
                colocated_routes: wrapping_next(self.colocated_routes),
                ..self
            },
            RoutePath::DecodeOnly { .. } => RouterState {
                disagg_routes: wrapping_next(self.disagg_routes),
                ..self
            },
            RoutePath::Disaggregated { prompt_tokens, .. } => RouterState {
                disagg_routes: wrapping_next(self.disagg_routes),
                ..self.after_misroute(prompt_tokens)
            },
        }
    }

    /// What choosing a path counts of signals that cannot be used: only a long prompt has backends
    /// priced by more than their queue.
    pub open spec fn route_clamps<F: Fn(Real) -> Real>(
        self,
        head: Seq<u8>,
        w: Option<&WarmthView>,
        ln: F,
    ) -> nat {
        if decode_only(head) || estimated_tokens(head) <= ROUTING_SHORT_CONTEXT_TOKENS {
            0
        } else {
            prefill_choice_clamps(self.prefill, ln, prefill_strengths(w), self.current.pi)
        }
    }

    /// What a control tick counts: that of a regret sample, where one is taken.
    #[verifier::opaque]
    pub open spec fn tick_clamps<F: Fn(Real) -> Real>(
        self,
        tokens: Option<u64>,
        sample: bool,
        w: Option<&WarmthView>,
        ln: F,
    ) -> nat {
        if sample && tokens is Some {
            regret_clamps(self.prefill_targets(w, ln), self.decode_targets(w, ln))
        } else {
            0
        }
    }

    /// The prompt length that a path reports to the control tick.
    pub open spec fn reported_tokens(self, path: RoutePath, head: Seq<u8>) -> Option<u64> {
        match path {
            RoutePath::Colocated { .. } => Some(estimated_tokens(head)),
            RoutePath::Disaggregated { prompt_tokens, .. } => Some(prompt_tokens),
            RoutePath::DecodeOnly { .. } => None,
        }
    }
}

/// A decode placement, as the contracts see it.
pub struct PlacementState {
    pub phase: Phase,
    pub backend: int,
    /// The request that holds a reservation.
    pub reserved: Option<u64>,
    pub tick: TickOutcome,
}

impl RouterState {
    /// What every router satisfies.
    pub open spec fn valid(self) -> bool {
        &&& (self.ledger matches Some(l) ==> l.valid())
        &&& (self.handoffs matches Some(h) ==> h.valid())
        &&& self.bucket.valid()
        &&& is_share(self.current.pi)
    }
}

impl RouterState {
    /// Whether KV is accounted for.
    pub open spec fn accounts_kv(self) -> bool {
        self.ledger is Some && self.handoffs is Some
    }

    /// The footprint a prompt of this length should have.
    pub open spec fn expected_bytes(self, tokens: u64) -> u64 {
        reserved_bytes(tokens as nat, self.bytes_per_token as nat) as u64
    }

    /// The hand-off that a response announces, if its size is credible: at least the footprint of
    /// the prompt and at most a multiple of it.
    pub open spec fn credible_handoff(
        self,
        response: Seq<u8>,
        id: u64,
        tokens: u64,
        label: Seq<char>,
    ) -> Option<Handoff> {
        let expected = self.expected_bytes(tokens);
        match announced(response, id, label) {
            Some(h) => if h.valid() && expected <= h.byte_len && h.byte_len <= saturating_product(
                expected as nat,
                KV_HANDOFF_BYTE_CEILING_MULTIPLE as nat,
            ) {
                Some(h)
            } else {
                None
            },
            None => None,
        }
    }

    /// Whether a finished prefill may continue: with KV accounting it needs a credible hand-off and
    /// room in the ledger.
    pub open spec fn admission(
        self,
        response: Seq<u8>,
        id: u64,
        tokens: u64,
        label: Seq<char>,
    ) -> Result<Option<Handoff>, Refusal> {
        if !self.accounts_kv() {
            Ok(None)
        } else {
            match self.credible_handoff(response, id, tokens, label) {
                None => Err(Refusal::HandoffMissing),
                Some(h) => match self.ledger->0.admits(Some(label), id, h.byte_len) {
                    Ok(_) => Ok(Some(h)),
                    Err(_) => Err(Refusal::KvAdmitRejected),
                },
            }
        }
    }

    /// The router after the ledger was asked.
    pub open spec fn after_admission(
        self,
        response: Seq<u8>,
        id: u64,
        tokens: u64,
        label: Seq<char>,
        now_ns: u64,
    ) -> RouterState {
        match (self.accounts_kv(), self.credible_handoff(response, id, tokens, label)) {
            (true, Some(h)) => RouterState {
                ledger: Some(
                    self.ledger->0.after_reserve(Some(label), id, h.byte_len, now_ns),
                ),
                ..self
            },
            _ => self,
        }
    }

    /// The router after the prefill time of a backend was measured.
    pub open spec fn after_measurement(self, label: Seq<char>, wall_ns: u128) -> RouterState {
        RouterState {
            prefill: noted(self.prefill, label, seconds_of_nanos(wall_ns as nat)),
            ..self
        }
    }

    /// The penalty for memory pressure, if it is above one.
    pub open spec fn phi_penalties(self) -> Seq<Real> {
        match self.ledger {
            Some(l) => if one().below(l.phi()) {
                seq![l.phi()]
            } else {
                Seq::empty()
            },
            None => Seq::empty(),
        }
    }

    /// The place of the backend with a label, prefill pool first.
    pub open spec fn place_for(self, label: Seq<char>) -> Place {
        match place_in(self.prefill, label) {
            Some(p) => p,
            None => match place_in(self.decode, label) {
                Some(p) => p,
                None => nowhere(),
            },
        }
    }

    /// Where decode goes after prefill on a label: the cheapest decode backend, or a colocated one
    /// if there is no decode pool.
    pub open spec fn decode_choice<F: Fn(Real) -> Real, G: Fn(Real) -> Real>(
        self,
        label: Seq<char>,
        kv_bytes: u64,
        w: Option<&WarmthView>,
        ln: F,
        exp: G,
    ) -> Option<(Phase, int)> {
        if self.decode.len() > 0 {
            let ctx = PlacementView {
                prefill_label: label,
                place: self.place_for(label),
                kv_bytes,
                use_rdma_routing: self.rdma_routing,
            };
            Some(
                (
                    Phase::Decode,
                    lowest_number(
                        decode_logs(
                            ctx,
                            self.decode,
                            decode_strengths(w),
                            self.phi_penalties(),
                            self.current.pi,
                            ln,
                            exp,
                        ),
                    ),
                ),
            )
        } else {
            match self.cheapest(self.colocated_phase, ln) {
                Some(i) => Some((self.colocated_phase, i)),
                None => None,
            }
        }
    }

    /// What choosing a decode backend counts.
    #[verifier::opaque]
    pub open spec fn decode_choice_clamps<F: Fn(Real) -> Real, G: Fn(Real) -> Real>(
        self,
        label: Seq<char>,
        kv_bytes: u64,
        w: Option<&WarmthView>,
        ln: F,
        exp: G,
    ) -> nat {
        if self.decode.len() > 0 {
            let ctx = PlacementView {
                prefill_label: label,
                place: self.place_for(label),
                kv_bytes,
                use_rdma_routing: self.rdma_routing,
            };
            total(
                decode_clamps(
                    ctx,
                    self.decode,
                    decode_strengths(w),
                    self.phi_penalties(),
                    self.current.pi,
                    ln,
                    exp,
                ),
            )
        } else {
            0
        }
    }

    /// What logging a prefill against its prediction counts.
    #[verifier::opaque]
    pub open spec fn log_clamps(self, phase: Phase, i: int, w: Option<&WarmthView>) -> nat {
        self.pool(phase)[i].cost_clamps(
            self.phi_penalties().len(),
            warmth_reward(self.decode_warmth(phase, i, w)),
            self.current.pi,
            false,
        )
    }

    /// The warmth that a backend has for decoding.
    pub open spec fn decode_warmth(self, phase: Phase, i: int, w: Option<&WarmthView>) -> Option<
        Real,
    > {
        match w {
            Some(v) => match phase {
                Phase::Decode => Some(v.decode@[i]),
                Phase::Prefill => Some(v.prefill_as_decode@[i]),
            },
            None => None,
        }
    }

    /// The router after a hand-off was published and transferred.
    pub open spec fn after_handoff<F: Fn(Real) -> Real>(
        self,
        h: Handoff,
        label: Seq<char>,
        b: BackendState,
        o: TransferOutcome,
        ln: F,
    ) -> RouterState {
        let published = Handoff { decode: Some(b.label), ..h };
        let d = distance(self.place_for(label), b.place);
        RouterState {
            handoffs: match self.handoffs {
                Some(r) => Some(r.after_publish(published).after_transfer(o.bytes, o.wall_ns)),
                None => None,
            },
            control: if self.handoffs is Some && label != b.label {
                ControlState {
                    rdma_cost_shadow: push_bounded(
                        self.control.rdma_cost_shadow,
                        SHADOW_SAMPLES as nat,
                        TransferRow {
                            prefill: label,
                            decode: b.label,
                            distance: d,
                            kv_bytes: h.byte_len,
                            analytic_ln: transfer_log(ln, h.byte_len, d),
                            flat_ln: value_at(ln, Real { bits: ROUTING_TRANSFER_PENALTY_BITS }),
                            observed_secs: seconds_of_nanos(o.wall_ns as nat),
                        },
                    ),
                    ..self.control
                }
            } else {
                self.control
            },
            ..self
        }
    }

    /// The router after a prefill was logged against its prediction.
    pub open spec fn after_prefill_row<F: Fn(Real) -> Real>(
        self,
        signals: PrefillSignals,
        phase: Phase,
        i: int,
        w: Option<&WarmthView>,
        ln: F,
    ) -> RouterState {
        let b = self.pool(phase)[i];
        RouterState {
            control: ControlState {
                corrector_shadow: push_bounded(
                    self.control.corrector_shadow,
                    SHADOW_SAMPLES as nat,
                    PrefillRow {
                        prompt_tokens: signals.prompt_tokens,
                        analytic_ln: b.cost_log(
                            ln,
                            self.phi_penalties(),
                            warmth_reward(self.decode_warmth(phase, i, w)),
                            self.current.pi,
                            false,
                        ),
                        observed_us: whole_micros(signals.prefill_wall_ns),
                        pool_pi: self.current.pi,
                        label: b.label,
                    },
                ),
                ..self.control
            },
            ..self
        }
    }

    /// The router once decode has been placed, up to the transfer of its hand-off.
    pub open spec fn placing(
        self,
        signals: PrefillSignals,
        response: Seq<u8>,
        label: Seq<char>,
        now_ns: u64,
    ) -> RouterState {
        self.after_admission(
            response,
            signals.request_id.spec_raw(),
            signals.prompt_tokens,
            label,
            now_ns,
        ).after_measurement(label, signals.prefill_wall_ns)
    }

    /// The router after a placement that found no backend: a reservation is given back.
    pub open spec fn after_abandoned(self, reserved: Option<Handoff>) -> RouterState {
        match (reserved, self.ledger) {
            (Some(h), Some(l)) => RouterState {
                ledger: Some(l.after_release(h.request_id)),
                ..self
            },
            _ => self,
        }
    }

    /// KV bytes to move: those of the hand-off, or the footprint of the prompt.
    pub open spec fn bytes_to_move(self, h: Option<Handoff>, tokens: u64) -> u64 {
        match h {
            Some(x) => x.byte_len,
            None => self.expected_bytes(tokens),
        }
    }

    /// The router after the whole continuation of a prefill whose decode went to backend `i`.
    pub open spec fn continued<F: Fn(Real) -> Real, G: Fn(Real) -> Real>(
        self,
        signals: PrefillSignals,
        label: Seq<char>,
        h: Option<Handoff>,
        phase: Phase,
        i: int,
        o: TransferOutcome,
        m: Moment,
        w: Option<&WarmthView>,
        ln: F,
        exp: G,
    ) -> (RouterState, TickOutcome) {
        let transferred = match h {
            Some(x) => self.after_handoff(x, label, self.pool(phase)[i], o, ln),
            None => self,
        };
        transferred.after_prefill_row(signals, phase, i, w, ln).ticked(
            Some(signals.prompt_tokens),
            true,
            m,
            w,
            ln,
            exp,
        )
    }

    /// What the continuation of a prefill counts once decode was placed on backend `i`.
    pub open spec fn continuation_clamps<F: Fn(Real) -> Real>(
        self,
        signals: PrefillSignals,
        phase: Phase,
        i: int,
        w: Option<&WarmthView>,
        ln: F,
    ) -> nat {
        self.log_clamps(phase, i, w) + self.tick_clamps(Some(signals.prompt_tokens), true, w, ln)
    }

    /// What placing decode after a finished prefill counts.
    pub open spec fn placing_clamps<F: Fn(Real) -> Real, G: Fn(Real) -> Real>(
        self,
        signals: PrefillSignals,
        response: Seq<u8>,
        label: Seq<char>,
        now_ns: u64,
        w: Option<&WarmthView>,
        ln: F,
        exp: G,
    ) -> nat {
        let id = signals.request_id.spec_raw();
        match self.admission(response, id, signals.prompt_tokens, label) {
            Err(_) => 0,
            Ok(h) => self.placing(signals, response, label, now_ns).decode_choice_clamps(
                label,
                self.bytes_to_move(h, signals.prompt_tokens),
                w,
                ln,
                exp,
            ),
        }
    }

    /// What the whole continuation of a finished prefill counts.
    pub open spec fn completion_clamps<F: Fn(Real) -> Real, G: Fn(Real) -> Real>(
        self,
        signals: PrefillSignals,
        response: Seq<u8>,
        label: Seq<char>,
        now_ns: u64,
        w: Option<&WarmthView>,
        ln: F,
        exp: G,
        placed: Option<(Phase, int)>,
    ) -> nat {
        self.placing_clamps(signals, response, label, now_ns, w, ln, exp) + match placed {
            Some((phase, i)) => self.placing(
                signals,
                response,
                label,
                now_ns,
            ).continuation_clamps(signals, phase, i, w, ln),
            None => 0,
        }
    }

    /// The hand-off that the transport is to move once decode was placed on backend `i`.
    pub open spec fn handed_over(
        self,
        signals: PrefillSignals,
        response: Seq<u8>,
        label: Seq<char>,
        now_ns: u64,
        phase: Phase,
        i: int,
    ) -> Option<Handoff> {
        let id = signals.request_id.spec_raw();
        match self.admission(response, id, signals.prompt_tokens, label) {
            Ok(h) => addressed(
                h,
                self.placing(signals, response, label, now_ns).pool(phase)[i].label,
            ),
            Err(_) => None,
        }
    }

    /// What becomes of a finished prefill, given what the transfer of its hand-off reported.
    pub open spec fn completed<F: Fn(Real) -> Real, G: Fn(Real) -> Real>(
        self,
        signals: PrefillSignals,
        response: Seq<u8>,
        label: Seq<char>,
        o: TransferOutcome,
        m: Moment,
        w: Option<&WarmthView>,
        ln: F,
        exp: G,
    ) -> (RouterState, Result<PlacementState, Refusal>) {
        let id = signals.request_id.spec_raw();
        match self.admission(response, id, signals.prompt_tokens, label) {
            Err(why) => (
                self.after_admission(response, id, signals.prompt_tokens, label, m.now_ns),
                Err(why),
            ),
            Ok(h) => {
                let placing = self.placing(signals, response, label, m.now_ns);
                let kv_bytes = self.bytes_to_move(h, signals.prompt_tokens);
                match placing.decode_choice(label, kv_bytes, w, ln, exp) {
                    None => (placing.after_abandoned(h), Err(Refusal::NoBackend)),
                    Some((phase, i)) => {
                        let (done, tick) = placing.continued(
                            signals,
                            label,
                            h,
                            phase,
                            i,
                            o,
                            m,
                            w,
                            ln,
                            exp,
                        );
                        (
                            done,
                            Ok(
                                PlacementState {
                                    phase,
                                    backend: i,
                                    reserved: match h {
                                        Some(x) => Some(x.request_id),
                                        None => None,
                                    },
                                    tick,
                                },
                            ),
                        )
                    },
                }
            },
        }
    }
}

/// Adding a row to a log adds it to its rows.
proof fn lemma_rows_pushed<A, B>(
    log: Seq<A>,
    rows: Seq<B>,
    f: spec_fn(A) -> B,
    max: nat,
    sample: A,
)
    requires
        rows == log.map_values(f),
        max > 0,
    ensures
        push_bounded(log, max, sample).map_values(f) == push_bounded(rows, max, f(sample)),
{
    if log.len() >= max {
        assert(push_bounded(log, max, sample).map_values(f) =~= push_bounded(
            rows,
            max,
            f(sample),
        ));
    } else {
        assert(push_bounded(log, max, sample).map_values(f) =~= push_bounded(
            rows,
            max,
            f(sample),
        ));
    }
}

/// Rebalancing and the heartbeat leave the pools as they are.
proof fn lemma_pools_kept(s: RouterState, signals: PoolPressure, now: Moment)
    ensures
        s.after_rebalance(signals, now).0.prefill == s.prefill,
        s.after_rebalance(signals, now).0.decode == s.decode,
        s.after_rebalance(signals, now).0.after_heartbeat(now).0.prefill == s.prefill,
        s.after_rebalance(signals, now).0.after_heartbeat(now).0.decode == s.decode,
{
    reveal(RouterState::after_rebalance);
    reveal(RouterState::after_heartbeat);
}

/// Routers with the same pools have the same targets.
proof fn lemma_same_targets<F: Fn(Real) -> Real>(
    a: RouterState,
    b: RouterState,
    w: Option<&WarmthView>,
    ln: F,
)
    requires
        a.prefill == b.prefill,
        a.decode == b.decode,
    ensures
        a.prefill_targets(w, ln) == b.prefill_targets(w, ln),
        a.decode_targets(w, ln) == b.decode_targets(w, ln),
        forall|tokens: Option<u64>, sample: bool| #[trigger]
            a.tick_clamps(tokens, sample, w, ln) == b.tick_clamps(tokens, sample, w, ln),
{
    reveal(RouterState::tick_clamps);
    assert(a.prefill_targets(w, ln) =~= b.prefill_targets(w, ln));
    assert(a.decode_targets(w, ln) =~= b.decode_targets(w, ln));
}

fn measured_strengths(values: &Vec<Real>) -> (r: Vec<Option<Real>>)
    ensures
        r@ == measured(values@),
{
    let n: usize = values.len();
    let mut out: Vec<Option<Real>> = Vec::new();
    for i in 0..n
        invariant
            n == values@.len(),
            out@ =~= measured(values@).take(i as int),
    {
        out.push(Some(values[i]));
    }
    assert(out@ =~= measured(values@));
    out
}

fn max_queue(pool: &Vec<Backend>) -> (r: usize)
    ensures
        r == longest_queue(pool_view(pool@)),
{
    let ghost all = pool_view(pool@);
    let n: usize = pool.len();
    let mut longest: usize = 0;
    for i in 0..n
        invariant
            n == pool@.len(),
            all == pool_view(pool@),
            longest == longest_queue(all.take(i as int)),
    {
        assert(all.take(i + 1).drop_last() =~= all.take(i as int));
        assert(all.take(i + 1).last() == pool@[i as int]@);
        let queued: usize = pool[i].inflight();
        if longest < queued {
            longest = queued;
        }
    }
    assert(all.take(n as int) =~= all);
    longest
}

fn live_queue_pressure(pool: &Vec<Backend>) -> (r: Real)
    ensures
        r == queue_pressure(pool_view(pool@)),
{
    let longest: Real = Real::from_u64(max_queue(pool) as u64);
    to_share(longest.over(longest.plus(Real::from_bits(QUEUE_MIDPOINT_BITS))))
}

/// The first backend of a pool with a label.
fn find_label(pool: &Vec<Backend>, label: &str) -> (r: Option<usize>)
    ensures
        match r {
            Some(i) => {
                &&& i < pool@.len()
                &&& pool_view(pool@)[i as int].label == label@
                &&& forall|j: int| 0 <= j < i ==> (#[trigger] pool_view(pool@)[j]).label != label@
            },
            None => forall|j: int|
                0 <= j < pool@.len() ==> (#[trigger] pool_view(pool@)[j]).label != label@,
        },
{
    let n: usize = pool.len();
    let mut i: usize = 0;
    while i < n
        invariant
            n == pool@.len(),
            i <= n,
            forall|j: int| 0 <= j < i ==> (#[trigger] pool_view(pool@)[j]).label != label@,
        decreases n - i,
    {
        if same_text(pool[i].label(), label) {
            return Some(i);
        }
        i = i + 1;
    }
    None
}

/// A measurement goes to the first backend with the label.
pub proof fn lemma_noted(pool: Seq<BackendState>, label: Seq<char>, secs: Real, i: int)
    requires
        0 <= i < pool.len(),
        pool[i].label == label,
        forall|j: int| 0 <= j < i ==> (#[trigger] pool[j]).label != label,
    ensures
        noted(pool, label, secs) == pool.update(i, pool[i].after_measurement(secs)),
        place_in(pool, label) == Some(pool[i].place),
    decreases pool.len(),
{
    if i > 0 {
        assert(pool[0].label != label);
        let rest = pool.drop_first();
        assert forall|j: int| 0 <= j < i - 1 implies (#[trigger] rest[j]).label != label by {
            assert(rest[j] == pool[j + 1]);
        }
        lemma_noted(rest, label, secs, i - 1);
        assert(noted(pool, label, secs) =~= pool.update(i, pool[i].after_measurement(secs)));
    }
}

/// A measurement for an unknown label changes nothing.
pub proof fn lemma_not_noted(pool: Seq<BackendState>, label: Seq<char>, secs: Real)
    requires
        forall|j: int| 0 <= j < pool.len() ==> (#[trigger] pool[j]).label != label,
    ensures
        noted(pool, label, secs) == pool,
        place_in(pool, label) is None,
    decreases pool.len(),
{
    if pool.len() > 0 {
        assert(pool[0].label != label);
        let rest = pool.drop_first();
        assert forall|j: int| 0 <= j < rest.len() implies (#[trigger] rest[j]).label != label by {
            assert(rest[j] == pool[j + 1]);
        }
        lemma_not_noted(rest, label, secs);
        assert(noted(pool, label, secs) =~= pool);
    }
}

/// The prefill backend whose cache is warm enough for a short prompt to leave the fast path.
pub fn warmth_override_target(warmth: Option<&WarmthView>) -> (r: Option<usize>)
    requires
        warmth matches Some(v) ==> v.prefill_known@.len() == v.prefill@.len(),
    ensures
        chosen(r) == override_target(warmth),
        r matches Some(i) ==> i < warmth->0.prefill@.len(),
{
    let v = match warmth {
        Some(v) => v,
        None => {
            return None;
        },
    };
    let n: usize = v.prefill.len();
    let mut best: Option<usize> = None;
    for i in 0..n
        invariant
            warmth == Some(v),
            n == v.prefill@.len(),
            v.prefill_known@.len() == n,
            forall|j: int| 0 <= j < i ==> #[trigger] v.prefill_known@[j],
            chosen(best) == warmest(v.prefill@.take(i as int)),
            best matches Some(b) ==> b < i,
    {
        if !v.prefill_known[i] {
            assert(!v.prefill_known@[i as int]);
            return None;
        }
        assert(v.prefill@.take(i + 1).drop_last() =~= v.prefill@.take(i as int));
        let s: Real = v.prefill[i];
        if !s.lt(Real::from_bits(ROUTING_SHORT_CONTEXT_WARMTH_OVERRIDE_BITS)) {
            match best {
                Some(b) => {
                    if v.prefill[b].lt(s) {
                        best = Some(i);
                    }
                },
                None => {
                    best = Some(i);
                },
            }
        }
    }
    assert(v.prefill@.take(n as int) =~= v.prefill@);
    best
}

impl Router {
    /// What every router satisfies.
    pub closed spec fn wf(self) -> bool {
        &&& (self.ledger matches Some(l) ==> l.wf())
        &&& (self.handoffs matches Some(h) ==> h@.valid())
        &&& self.control.corrector_shadow.limit() == SHADOW_SAMPLES
        &&& self.control.rdma_cost_shadow.limit() == SHADOW_SAMPLES
        &&& self.bucket@.valid()
        &&& is_share(self.dataplane.current().pi)
    }

    /// Every router is within its limits: its ledger, its hand-offs, its bucket and its share.
    pub proof fn wf_is_valid(self)
        requires
            self.wf(),
        ensures
            self@.valid(),
    {
        if let Some(l) = self.ledger {
            l.wf_is_valid();
        }
    }

    /// A router without KV accounting. `now` gives the clocks; the flags are those of the
    /// environment.
    pub fn new(
        prefill: Vec<Backend>,
        decode: Vec<Backend>,
        now: Moment,
        admit_mode: AdmitMode,
        rebalancer_actuation: bool,
        rdma_routing: bool,
        colocated_phase: Phase,
    ) -> (r: Router)
        ensures
            r.wf(),
            r@.prefill == pool_view(prefill@),
            r@.decode == pool_view(decode@),
            r@.ledger is None,
            r@.handoffs is None,
            r@.bytes_per_token == 128,
            r@.current == (DataPlaneSnapshot {
                generation: 0,
                pi: share(Real { bits: HALF_BITS }),
                published_at_ms: now.now_ms,
            }),
            r@.bucket == (BucketState {
                tokens: at_least_one(DATAPLANE_ADMIT_BURST),
                capacity: at_least_one(DATAPLANE_ADMIT_BURST),
                shed_total: 0,
            }),
            r@.admit_mode == admit_mode,
            !r@.kernel_attached,
            r@.last_admit_capacity == DATAPLANE_ADMIT_BURST,
            r@.actuation == rebalancer_actuation,
            r@.colocated_routes == 0,
            r@.disagg_routes == 0,
            r@.rdma_routing == rdma_routing,
            r@.colocated_phase == colocated_phase,
            r@.groups is None,
            r@.control.rebalancer == (RebalancerState {
                pi: Real { bits: HALF_BITS },
                last_change_ns: ready_since(now.now_ns),
                mode: RebalancerMode::Shadow,
            }),
            r@.control.predictor == Seq::<u64>::empty(),
            r@.control.regret_sum == zero(),
            r@.control.regret_samples == 0,
            r@.control.last_pi_star == (Real { bits: HALF_BITS }),
            r@.control.corrector_shadow == Seq::<PrefillRow>::empty(),
            r@.control.rdma_cost_shadow == Seq::<TransferRow>::empty(),
            r@.control.misroute_sum == zero(),
            r@.control.misroute_samples == 0,
    {
        let half: Real = Real::from_bits(HALF_BITS);
        proof {
            lemma_share(half);
        }
        let r = Router {
            prefill,
            decode,
            ledger: None,
            handoffs: None,
            bytes_per_token: 128,
            control: ControlPlane {
                rebalancer: PoolRebalancer::new(RebalancerMode::Shadow, now.now_ns),
                predictor: LengthPredictor::default(),
                regret_sum: Real::from_bits(0),
                regret_samples: 0,
                last_pi_star: half,
                corrector_shadow: CorrectorShadowLog::new(SHADOW_SAMPLES),
                rdma_cost_shadow: RdmaCostShadowLog::new(SHADOW_SAMPLES),
                fastpath_misroute_sum: Real::from_bits(0),
                fastpath_misroute_samples: 0,
            },
            dataplane: RcuRoutingTable::new(half, now.now_ms),
            bucket: AdmitBucket::new(DATAPLANE_ADMIT_BURST),
            admit_mode,
            kernel_attached: false,
            last_admit_capacity: DATAPLANE_ADMIT_BURST,
            rebalancer_actuation,
            colocated_routes: 0,
            disagg_routes: 0,
            rdma_routing,
            colocated_phase,
            cache_registry: None,
        };
        assert(r@.control.corrector_shadow =~= Seq::<PrefillRow>::empty());
        assert(r@.control.rdma_cost_shadow =~= Seq::<TransferRow>::empty());
        r
    }

    /// Adds KV accounting: a ledger over the decode pool and a registry of hand-offs.
    pub fn with_kv_pool(self, decode_capacity_bytes: u64, bytes_per_token: u64) -> (r: Router)
        requires
            self.wf(),
        ensures
            r.wf(),
            r@ == (RouterState {
                ledger: Some(fresh_ledger(decode_capacity_bytes)),
                handoffs: Some(fresh_handoffs()),
                bytes_per_token,
                ..self@
            }),
    {
        let mut r = self;
        r.ledger = Some(ReservationLedger::new(decode_capacity_bytes));
        r.handoffs = Some(HandoffRegistry::new());
        r.bytes_per_token = bytes_per_token;
        r
    }

    /// Switches the application of pool shares; switching it on starts with equal shares.
    pub fn with_rebalancer_actuation(self, enabled: bool, now_ns: u64) -> (r: Router)
        requires
            self.wf(),
        ensures
            r.wf(),
            r@ == (RouterState {
                actuation: enabled,
                control: if enabled {
                    ControlState {
                        rebalancer: RebalancerState {
                            pi: Real { bits: HALF_BITS },
                            last_change_ns: ready_since(now_ns),
                            mode: RebalancerMode::CanActuate,
                        },
                        ..self@.control
                    }
                } else {
                    self@.control
                },
                ..self@
            }),
    {
        let mut r = self;
        r.rebalancer_actuation = enabled;
        if enabled {
            r.control.rebalancer = PoolRebalancer::new(RebalancerMode::CanActuate, now_ns);
        }
        r
    }

    /// Switches charging transfers by topology.
    pub fn with_rdma_routing(self, enabled: bool) -> (r: Router)
        requires
            self.wf(),
        ensures
            r.wf(),
            r@ == (RouterState { rdma_routing: enabled, ..self@ }),
    {
        let mut r = self;
        r.rdma_routing = enabled;
        r
    }

    /// Puts cache-domain isolation under a registry of groups.
    #[must_use]
    pub fn with_cache_registry(self, registry: SharedPrefixGroupRegistry) -> (r: Router)
        requires
            self.wf(),
        ensures
            r.wf(),
            r@ == (RouterState { groups: Some(registry@), ..self@ }),
    {
        let mut r = self;
        r.cache_registry = Some(registry);
        r
    }

    /// Sets the admission mode.
    pub fn with_admit_mode(self, mode: AdmitMode) -> (r: Router)
        requires
            self.wf(),
        ensures
            r.wf(),
            r@ == (RouterState { admit_mode: mode, ..self@ }),
    {
        let mut r = self;
        r.admit_mode = mode;
        r
    }

    /// Settings for the kernel program; a mode without the kernel becomes the hybrid one.
    pub fn plan_kernel_admit(&mut self, listen_port: Option<u16>) -> (r: XdpAdmitConfig)
        requires
            old(self).wf(),
        ensures
            final(self).wf(),
            final(self)@ == (RouterState {
                admit_mode: if old(self)@.admit_mode == AdmitMode::Userspace {
                    AdmitMode::Hybrid
                } else {
                    old(self)@.admit_mode
                },
                ..old(self)@
            }),
            r.capacity == scaled_capacity(DATAPLANE_ADMIT_BURST, old(self)@.current.pi),
            r.refill_per_sec == crate::params::DATAPLANE_ADMIT_REFILL_PER_SEC,
            r.listen_port == listen_port,
    {
        if !self.admit_mode.wants_kernel() {
            self.admit_mode = AdmitMode::Hybrid;
        }
        let capacity: u64 = admit_capacity_for_pi(DATAPLANE_ADMIT_BURST, self.dataplane.read_pi());
        let mut config: XdpAdmitConfig = XdpAdmitConfig::with_capacity(capacity);
        config.listen_port = listen_port;
        config
    }

    /// Notes that the kernel program is in place with the given capacity.
    pub fn confirm_kernel_admit(&mut self, capacity: u64)
        requires
            old(self).wf(),
        ensures
            final(self).wf(),
            final(self)@ == (RouterState {
                kernel_attached: true,
                bucket: BucketState {
                    tokens: at_least_one(capacity),
                    capacity: at_least_one(capacity),
                    ..old(self)@.bucket
                },
                ..old(self)@
            }),
    {
        self.kernel_attached = true;
        self.bucket.reseed(capacity);
    }

    /// Refills the bucket at another capacity; returns what the kernel bucket is to be set to.
    pub fn sync_admit_capacity(&mut self, capacity: u64) -> (r: u64)
        requires
            old(self).wf(),
        ensures
            final(self).wf(),
            r == at_least_one(capacity),
            final(self)@ == (RouterState {
                bucket: BucketState { tokens: r, capacity: r, ..old(self)@.bucket },
                ..old(self)@
            }),
    {
        let cap: u64 = if capacity == 0 {
            1
        } else {
            capacity
        };
        self.bucket.reseed(cap);
        cap
    }

    /// Takes a token for a connection where the bucket is in charge: `Ok(true)` with a token,
    /// `Ok(false)` where the kernel sheds.
    pub fn admit_conn(&mut self) -> (r: Result<bool, ShedReason>)
        requires
            old(self).wf(),
        ensures
            final(self).wf(),
            ({
                let s = old(self)@;
                let bucketed = s.admit_mode == AdmitMode::Userspace || !s.kernel_attached;
                &&& match r {
                    Ok(took) => took == bucketed && (bucketed ==> s.bucket.tokens > 0),
                    Err(_) => bucketed && s.bucket.tokens == 0,
                }
                &&& final(self)@ == (RouterState {
                    bucket: if !bucketed {
                        s.bucket
                    } else if s.bucket.tokens == 0 {
                        BucketState { shed_total: wrapping_next(s.bucket.shed_total), ..s.bucket }
                    } else {
                        BucketState { tokens: (s.bucket.tokens - 1) as u64, ..s.bucket }
                    },
                    ..s
                })
            }),
    {
        if !self.admit_mode.uses_userspace_admit(self.kernel_attached) {
            return Ok(false);
        }
        match self.bucket.try_admit() {
            Ok(()) => Ok(true),
            Err(e) => Err(e),
        }
    }

    /// Puts the token of a finished connection back.
    pub fn release_conn(&mut self)
        requires
            old(self).wf(),
        ensures
            final(self).wf(),
            final(self)@ == (RouterState {
                bucket: crate::admission::after_release(old(self)@.bucket, 1),
                ..old(self)@
            }),
    {
        if self.bucket.available() < u64::MAX {
            self.bucket.release(1);
        }
    }

    fn maybe_sync_admit_for_pi(&mut self, pi: Real) -> (r: Option<u64>)
        requires
            old(self).wf(),
        ensures
            final(self).wf(),
            (final(self)@, r) == old(self)@.synced(pi),
    {
        let cap: u64 = admit_capacity_for_pi(DATAPLANE_ADMIT_BURST, pi);
        if cap != self.last_admit_capacity {
            self.last_admit_capacity = cap;
            Some(self.sync_admit_capacity(cap))
        } else {
            None
        }
    }

    fn publish_share(&mut self, pi: Real, now_ms: u64)
        requires
            old(self).wf(),
        ensures
            final(self).wf(),
            final(self)@ == old(self)@.published(pi, now_ms),
    {
        proof {
            lemma_share(pi);
        }
        let generation: u64 = self.dataplane.generation().saturating_add(1);
        self.dataplane.publish_pi(generation, pi, now_ms);
    }

    /// Applies the share that a trace window asks for, without hysteresis or cooldown. Returns the
    /// capacity for the kernel bucket, if it changes.
    pub fn actuate_from_trace_pressure(
        &mut self,
        signals: PoolPressure,
        now: Moment,
    ) -> (r: Option<u64>)
        requires
            old(self).wf(),
        ensures
            final(self).wf(),
            ({
                let s = old(self)@;
                let wanted = wanted_share(s.control.rebalancer.pi, signals);
                let noted = RouterState {
                    control: ControlState {
                        last_pi_star: wanted,
                        rebalancer: if s.actuation {
                            RebalancerState {
                                pi: wanted,
                                last_change_ns: now.now_ns,
                                mode: s.control.rebalancer.mode,
                            }
                        } else {
                            s.control.rebalancer
                        },
                        ..s.control
                    },
                    ..s
                };
                if s.actuation {
                    (final(self)@, r) == noted.published(wanted, now.now_ms).synced(wanted)
                } else {
                    final(self)@ == noted && r is None
                }
            }),
    {
        let pi_star: Real = self.control.rebalancer.compute_pi_star(&signals);
        self.control.last_pi_star = pi_star;
        if self.rebalancer_actuation {
            self.control.rebalancer.force_actuate(pi_star, now.now_ns);
            self.publish_share(pi_star, now.now_ms);
            self.maybe_sync_admit_for_pi(pi_star)
        } else {
            None
        }
    }

    fn pool_pressure(&self, warmth: Option<&WarmthView>, fp_share: Real) -> (r: PoolPressure)
        requires
            self.wf(),
        ensures
            r == self@.pressure(warmth, fp_share),
    {
        proof {
            reveal(RouterState::pressure);
        }
        let mut signals: PoolPressure = match warmth {
            Some(v) => export_pool_pressure(&v.gossip, fp_share),
            None => PoolPressure::default(),
        };
        signals.q_prefill = signals.q_prefill.max_with(live_queue_pressure(&self.prefill));
        signals.q_decode = signals.q_decode.max_with(live_queue_pressure(&self.decode));
        if let Some(ledger) = &self.ledger {
            let capacity: u64 = ledger.capacity_bytes();
            let divisor: u64 = if capacity == 0 {
                1
            } else {
                capacity
            };
            let kv: Real = Real::from_u64(ledger.fleet_reserved()).over(Real::from_u64(divisor));
            signals.kv_decode = signals.kv_decode.max_with(to_share(kv));
        }
        signals.fp_share = to_share(fp_share);
        signals
    }

    fn fast_path_share(&self, otherwise: Real) -> (r: Real)
        ensures
            r == self@.colocated_share(otherwise),
    {
        let routed: u64 = self.colocated_routes.saturating_add(self.disagg_routes);
        if routed > 0 {
            Real::from_u64(self.colocated_routes).over(Real::from_u64(routed))
        } else {
            otherwise
        }
    }

    fn rebalance(&mut self, signals: &PoolPressure, now: Moment) -> (r: Option<u64>)
        requires
            old(self).wf(),
        ensures
            final(self).wf(),
            (final(self)@, r) == old(self)@.after_rebalance(*signals, now),
    {
        proof {
            reveal(RouterState::after_rebalance);
        }
        self.control.last_pi_star = self.control.rebalancer.shadow_pi_star(signals);
        let changed: Option<Real> = self.control.rebalancer.maybe_update(signals, now.now_ns);
        if self.rebalancer_actuation {
            if let Some(new_pi) = changed {
                self.publish_share(new_pi, now.now_ms);
            }
            let pi: Real = self.control.rebalancer.pi();
            self.maybe_sync_admit_for_pi(pi)
        } else {
            None
        }
    }

    fn heartbeat(&mut self, now: Moment) -> (r: TickOutcome)
        requires
            old(self).wf(),
        ensures
            final(self).wf(),
            (final(self)@, r) == old(self)@.after_heartbeat(now),
    {
        proof {
            reveal(RouterState::after_heartbeat);
        }
        if self.dataplane.age_ms(now.now_ms) < DATAPLANE_RCU_HEARTBEAT_MS {
            return TickOutcome { kernel_capacity: None, kernel_lost: false };
        }
        let pi: Real = self.control.rebalancer.pi();
        self.publish_share(pi, now.now_ms);
        let lost: bool = self.kernel_attached && !now.kernel_alive;
        if lost {
            self.kernel_attached = false;
        }
        let capacity: Option<u64> = if self.rebalancer_actuation || self.kernel_attached {
            self.maybe_sync_admit_for_pi(pi)
        } else {
            None
        };
        TickOutcome { kernel_capacity: capacity, kernel_lost: lost }
    }

    fn sample_pairing_regret<F: Fn(Real) -> Real + Copy, G: Fn(Real) -> Real + Copy>(
        &mut self,
        warmth: Option<&WarmthView>,
        ln: F,
        exp: G,
        events: &mut ClampEvents,
    )
        requires
            old(self).wf(),
            is_function(ln),
            is_function(exp),
            fits(warmth, old(self)@.prefill.len(), old(self)@.decode.len()),
        ensures
            final(self).wf(),
            final(self)@ == old(self)@.after_regret(warmth, ln, exp),
            *final(events) == old(events).plus(
                regret_clamps(
                    old(self)@.prefill_targets(warmth, ln),
                    old(self)@.decode_targets(warmth, ln),
                ),
            ),
    {
        proof {
            reveal(RouterState::after_regret);
        }
        if self.prefill.len() == 0 || self.decode.len() == 0 {
            proof {
                counts_add_up(*old(events), 0, 0);
            }
            return;
        }
        let penalty: Real = Real::from_bits(ROUTING_TRANSFER_PENALTY_BITS);
        let ghost s = self@;
        let mut pfs: Vec<PairTarget> = Vec::new();
        let n: usize = self.prefill.len();
        for i in 0..n
            invariant
                is_function(ln),
                self@ == s,
                n == self.prefill@.len() == s.prefill.len(),
                fits(warmth, s.prefill.len(), s.decode.len()),
                penalty.bits == ROUTING_TRANSFER_PENALTY_BITS,
                targets(pfs@) =~= s.prefill_targets(warmth, ln).take(i as int),
        {
            let strength: Option<Real> = match warmth {
                Some(v) => Some(v.prefill[i]),
                None => None,
            };
            assert(strength == entry(prefill_strengths(warmth), i as int));
            let t = pair_target(&self.prefill[i], strength, None, penalty, ln);
            let ghost before = targets(pfs@);
            pfs.push(t);
            assert(targets(pfs@) =~= before.push(t@));
        }
        assert(targets(pfs@) =~= s.prefill_targets(warmth, ln));
        let mut dcs: Vec<PairTarget> = Vec::new();
        let m: usize = self.decode.len();
        for i in 0..m
            invariant
                is_function(ln),
                self@ == s,
                m == self.decode@.len() == s.decode.len(),
                fits(warmth, s.prefill.len(), s.decode.len()),
                penalty.bits == ROUTING_TRANSFER_PENALTY_BITS,
                targets(dcs@) =~= s.decode_targets(warmth, ln).take(i as int),
        {
            let strength: Option<Real> = match warmth {
                Some(v) => Some(v.decode[i]),
                None => None,
            };
            assert(strength == entry(decode_strengths(warmth), i as int));
            let t = pair_target(&self.decode[i], None, strength, penalty, ln);
            let ghost before = targets(dcs@);
            dcs.push(t);
            assert(targets(dcs@) =~= before.push(t@));
        }
        assert(targets(dcs@) =~= s.decode_targets(warmth, ln));
        let sampled: Real = pairing_regret_targets(&pfs, &dcs, exp, events);
        self.control.regret_sum = self.control.regret_sum.plus(sampled);
        self.control.regret_samples = self.control.regret_samples.wrapping_add(1);
    }

    fn record_prompt(&mut self, prompt_tokens: Option<u64>)
        requires
            old(self).wf(),
        ensures
            final(self).wf(),
            final(self)@ == old(self)@.after_prompt(prompt_tokens),
    {
        if let Some(tokens) = prompt_tokens {
            self.control.predictor.record(tokens);
        }
    }

    /// Maintenance after a request: the prompt length, pool shares, the heartbeat of the data plane
    /// and, on demand, a sample of pairing regret.
    pub fn deferred_control_tick<F: Fn(Real) -> Real + Copy, G: Fn(Real) -> Real + Copy>(
        &mut self,
        prompt_tokens: Option<u64>,
        sample_regret: bool,
        now: Moment,
        warmth: Option<&WarmthView>,
        ln: F,
        exp: G,
        events: &mut ClampEvents,
    ) -> (r: TickOutcome)
        requires
            old(self).wf(),
            is_function(ln),
            is_function(exp),
            fits(warmth, old(self)@.prefill.len(), old(self)@.decode.len()),
        ensures
            final(self).wf(),
            (final(self)@, r) == old(self)@.ticked(
                prompt_tokens,
                sample_regret,
                now,
                warmth,
                ln,
                exp,
            ),
            *final(events) == old(events).plus(
                old(self)@.tick_clamps(prompt_tokens, sample_regret, warmth, ln),
            ),
    {
        let ghost start = self@;
        proof {
            counts_add_up(*old(events), 0, 0);
            reveal(RouterState::tick_clamps);
        }
        let need: bool = sample_regret || self.rebalancer_actuation || self.dataplane.age_ms(
            now.now_ms,
        ) >= DATAPLANE_RCU_HEARTBEAT_MS;
        assert(need == start.rebalances(sample_regret, now.now_ms));
        self.record_prompt(prompt_tokens);
        let ghost recorded = self@;
        if !need {
            return TickOutcome { kernel_capacity: None, kernel_lost: false };
        }
        let fp_share: Real = self.fast_path_share(Real::from_bits(HALF_BITS));
        let signals: PoolPressure = self.pool_pressure(warmth, fp_share);
        let first: Option<u64> = self.rebalance(&signals, now);
        let ghost balanced = self@;
        assert((balanced, first) == recorded.after_rebalance(signals, now));
        let beat: TickOutcome = self.heartbeat(now);
        let ghost beaten = self@;
        assert((beaten, beat) == balanced.after_heartbeat(now));
        proof {
            lemma_pools_kept(recorded, signals, now);
        }
        if sample_regret && prompt_tokens.is_some() {
            proof {
                lemma_same_targets(start, self@, warmth, ln);
            }
            self.sample_pairing_regret(warmth, ln, exp, events);
        }
        TickOutcome {
            kernel_capacity: if beat.kernel_capacity.is_some() {
                beat.kernel_capacity
            } else {
                first
            },
            kernel_lost: beat.kernel_lost,
        }
    }
}

/// Decode placement after prefill.
#[derive(Debug)]
pub struct DecodePlacement {
    pub phase: Phase,
    pub backend: usize,
    pub reservation: Option<ReservationGuard>,
    /// What the control tick asks of the kernel program.
    pub tick: TickOutcome,
}

impl DecodePlacement {
    /// The backend that decodes, by its pool and its place there.
    #[must_use]
    pub fn backend(&self) -> (r: (Phase, usize))
        ensures
            r == (self.phase, self.backend),
    {
        (self.phase, self.backend)
    }
}

/// The request behind an optional reservation.
pub open spec fn guard_id(g: Option<ReservationGuard>) -> Option<u64> {
    match g {
        Some(x) => Some(x.id()),
        None => None,
    }
}

impl View for DecodePlacement {
    type V = PlacementState;

    open spec fn view(&self) -> PlacementState {
        PlacementState {
            phase: self.phase,
            backend: self.backend as int,
            reserved: guard_id(self.reservation),
            tick: self.tick,
        }
    }
}

/// A decode placement before its hand-off is transferred.
#[derive(Debug)]
pub struct PendingPlacement {
    pub phase: Phase,
    pub backend: usize,
    pub reservation: Option<ReservationGuard>,
    /// The hand-off, its decode label set.
    pub handoff: Option<HandoffDescriptor>,
}

/// The view of an optional hand-off.
pub open spec fn handoff_view(h: Option<HandoffDescriptor>) -> Option<Handoff> {
    match h {
        Some(d) => Some(d@),
        None => None,
    }
}

/// A hand-off on its way to a decode backend.
pub open spec fn addressed(h: Option<Handoff>, label: Seq<char>) -> Option<Handoff> {
    match h {
        Some(x) => Some(Handoff { decode: Some(label), ..x }),
        None => None,
    }
}

impl Router {
    #[must_use]
    pub fn cache_registry(&self) -> (r: Option<&SharedPrefixGroupRegistry>)
        ensures
            match r {
                Some(g) => self@.groups == Some(g@),
                None => self@.groups is None,
            },
    {
        self.cache_registry.as_ref()
    }

    /// The cache domain whose warmth a request may use: with a registry and an identity the one the
    /// registry resolves, else none in particular.
    #[must_use]
    pub fn isolation_key(&self, identity: Option<&RequestIdentity>) -> (r: Option<CacheDomainKey>)
        ensures
            r == isolated(self@.groups, identity),
    {
        match (&self.cache_registry, identity) {
            (Some(registry), Some(id)) => Some(
                registry.resolve_domain_key(id.tenant, id.group, id.content_fp),
            ),
            _ => None,
        }
    }

    pub fn admit_mode(&self) -> (r: AdmitMode)
        ensures
            r == self@.admit_mode,
    {
        self.admit_mode
    }

    pub fn kernel_admit_attached(&self) -> (r: bool)
        ensures
            r == self@.kernel_attached,
    {
        self.kernel_attached
    }

    /// Connections shed by the bucket and by the kernel together.
    pub fn total_admit_shed(&self, kernel_shed: u64) -> (r: u64)
        ensures
            r == if self@.bucket.shed_total + kernel_shed > u64::MAX {
                u64::MAX as int
            } else {
                self@.bucket.shed_total + kernel_shed
            },
    {
        self.bucket.shed_total().saturating_add(kernel_shed)
    }

    #[must_use]
    pub fn rebalancer_actuation(&self) -> (r: bool)
        ensures
            r == self@.actuation,
    {
        self.rebalancer_actuation
    }

    #[must_use]
    pub fn dataplane(&self) -> (r: &RcuRoutingTable)
        ensures
            r.current() == self@.current,
    {
        &self.dataplane
    }

    #[must_use]
    pub fn admit_bucket(&self) -> (r: &AdmitBucket)
        ensures
            r@ == self@.bucket,
    {
        &self.bucket
    }

    #[must_use]
    pub fn dataplane_pi(&self) -> (r: Real)
        requires
            self.wf(),
        ensures
            r == self@.current.pi,
            is_share(r),
    {
        self.dataplane.read_pi()
    }

    #[must_use]
    pub fn dataplane_age_ms(&self, now_ms: u64) -> (r: u64)
        ensures
            r == age(self@.current, now_ms),
    {
        self.dataplane.age_ms(now_ms)
    }

    #[must_use]
    pub fn ledger(&self) -> (r: Option<&ReservationLedger>)
        requires
            self.wf(),
        ensures
            match r {
                Some(l) => self@.ledger == Some(l@) && l.wf(),
                None => self@.ledger is None,
            },
    {
        self.ledger.as_ref()
    }

    /// Gives the reservation of a finished session back.
    pub fn release_reservation(&mut self, guard: ReservationGuard)
        requires
            old(self).wf(),
        ensures
            final(self).wf(),
            final(self)@ == (RouterState {
                ledger: match old(self)@.ledger {
                    Some(l) => Some(l.after_release(guard.id())),
                    None => None,
                },
                ..old(self)@
            }),
    {
        match &mut self.ledger {
            Some(ledger) => {
                guard.release(ledger);
            },
            None => {},
        }
    }

    /// Reclaims the reservations of abandoned sessions and says how many there were.
    pub fn reclaim_expired(&mut self, now_ns: u64) -> (n: usize)
        requires
            old(self).wf(),
        ensures
            final(self).wf(),
            final(self)@ == (RouterState {
                ledger: match old(self)@.ledger {
                    Some(l) => Some(l.after_reclaim(now_ns)),
                    None => None,
                },
                ..old(self)@
            }),
            n == match old(self)@.ledger {
                Some(l) => l.reservations.dom().len() - l.after_reclaim(
                    now_ns,
                ).reservations.dom().len(),
                None => 0,
            },
    {
        match &mut self.ledger {
            Some(ledger) => ledger.reclaim_expired(now_ns),
            None => 0,
        }
    }

    #[must_use]
    pub fn handoffs(&self) -> (r: Option<&HandoffRegistry>)
        requires
            self.wf(),
        ensures
            match r {
                Some(h) => self@.handoffs == Some(h@) && h@.valid(),
                None => self@.handoffs is None,
            },
    {
        self.handoffs.as_ref()
    }

    #[must_use]
    pub fn bytes_per_token(&self) -> (r: u64)
        ensures
            r == self@.bytes_per_token,
    {
        self.bytes_per_token
    }

    /// The backends of a pool.
    pub fn pool(&self, phase: Phase) -> (r: &Vec<Backend>)
        ensures
            pool_view(r@) == self@.pool(phase),
    {
        match phase {
            Phase::Prefill => &self.prefill,
            Phase::Decode => &self.decode,
        }
    }

    /// Counts a request in or out at a backend.
    pub fn count_inflight(&mut self, phase: Phase, backend: usize, entering: bool)
        requires
            old(self).wf(),
            backend < old(self)@.pool(phase).len(),
        ensures
            final(self).wf(),
            ({
                let s = old(self)@;
                let b = s.pool(phase)[backend as int];
                let counted = BackendState {
                    inflight: if entering {
                        if b.inflight == usize::MAX {
                            0
                        } else {
                            (b.inflight + 1) as usize
                        }
                    } else if b.inflight == 0 {
                        usize::MAX
                    } else {
                        (b.inflight - 1) as usize
                    },
                    ..b
                };
                final(self)@ == match phase {
                    Phase::Prefill => RouterState {
                        prefill: s.prefill.update(backend as int, counted),
                        ..s
                    },
                    Phase::Decode => RouterState {
                        decode: s.decode.update(backend as int, counted),
                        ..s
                    },
                }
            }),
    {
        let ghost s = self@;
        match phase {
            Phase::Prefill => {
                if entering {
                    self.prefill[backend].incr_inflight();
                } else {
                    self.prefill[backend].decr_inflight();
                }
                assert(self@.prefill =~= s.prefill.update(
                    backend as int,
                    self.prefill@[backend as int]@,
                ));
            },
            Phase::Decode => {
                if entering {
                    self.decode[backend].incr_inflight();
                } else {
                    self.decode[backend].decr_inflight();
                }
                assert(self@.decode =~= s.decode.update(
                    backend as int,
                    self.decode@[backend as int]@,
                ));
            },
        }
    }

    /// Figures of the control plane; `kernel_shed` is what the kernel has shed.
    pub fn control_metrics(&self, now_ms: u64, kernel_shed: u64) -> (r: ControlMetrics)
        ensures
            ({
                let s = self@;
                &&& r.pi == s.control.rebalancer.pi
                &&& r.pi_star == s.control.last_pi_star
                &&& r.pairing_regret_mean == if s.control.regret_samples > 0 {
                    quotient(s.control.regret_sum, of_nat(s.control.regret_samples as nat))
                } else {
                    zero()
                }
                &&& r.pairing_regret_samples == s.control.regret_samples
                &&& r.predictor_p90_tokens == percentile_of(s.control.predictor, 90)
                &&& r.dataplane_pi == s.current.pi
                &&& r.dataplane_age_ms == age(s.current, now_ms)
                &&& r.rcu_stale == (age(s.current, now_ms) > DATAPLANE_RCU_STALE_ALERT_MS)
                &&& r.rcu_stale_alert_ms == DATAPLANE_RCU_STALE_ALERT_MS
                &&& r.admit_shed_total == if s.bucket.shed_total + kernel_shed > u64::MAX {
                    u64::MAX as int
                } else {
                    s.bucket.shed_total + kernel_shed
                }
                &&& r.fast_path_ratio == s.colocated_share(zero())
                &&& r.colocated_routes == s.colocated_routes
                &&& r.disagg_routes == s.disagg_routes
                &&& r.fastpath_misroute_mean == if s.control.misroute_samples > 0 {
                    quotient(s.control.misroute_sum, of_nat(s.control.misroute_samples as nat))
                } else {
                    zero()
                }
                &&& r.fastpath_misroute_samples == s.control.misroute_samples
                &&& r.corrector_shadow_samples == s.control.corrector_shadow.len()
                &&& r.rdma_cost_shadow_samples == s.control.rdma_cost_shadow.len()
            }),
    {
        let cp = &self.control;
        let nil: Real = Real::from_bits(0);
        ControlMetrics {
            pi: cp.rebalancer.pi(),
            pi_star: cp.last_pi_star,
            pairing_regret_mean: if cp.regret_samples > 0 {
                cp.regret_sum.over(Real::from_u64(cp.regret_samples))
            } else {
                nil
            },
            pairing_regret_samples: cp.regret_samples,
            predictor_p90_tokens: cp.predictor.p90(),
            dataplane_pi: self.dataplane.read_pi(),
            dataplane_age_ms: self.dataplane.age_ms(now_ms),
            rcu_stale: self.dataplane.is_stale(now_ms, DATAPLANE_RCU_STALE_ALERT_MS),
            rcu_stale_alert_ms: DATAPLANE_RCU_STALE_ALERT_MS,
            admit_shed_total: self.total_admit_shed(kernel_shed),
            fast_path_ratio: self.fast_path_share(nil),
            colocated_routes: self.colocated_routes,
            disagg_routes: self.disagg_routes,
            fastpath_misroute_mean: if cp.fastpath_misroute_samples > 0 {
                cp.fastpath_misroute_sum.over(Real::from_u64(cp.fastpath_misroute_samples))
            } else {
                nil
            },
            fastpath_misroute_samples: cp.fastpath_misroute_samples,
            corrector_shadow_samples: cp.corrector_shadow.len() as u64,
            rdma_cost_shadow_samples: cp.rdma_cost_shadow.len() as u64,
        }
    }

    pub fn corrector_shadow_samples(&self) -> (r: Vec<CorrectorShadowSample>)
        ensures
            prefill_rows(r@) == self@.control.corrector_shadow,
    {
        self.control.corrector_shadow.samples()
    }

    pub fn rdma_cost_shadow_samples(&self) -> (r: Vec<RdmaCostShadowSample>)
        ensures
            transfer_rows(r@) == self@.control.rdma_cost_shadow,
    {
        self.control.rdma_cost_shadow.samples()
    }

    /// The place of the backend with a label.
    pub fn topology_for_label(&self, label: &str) -> (r: TopologyId)
        ensures
            r@ == self@.place_for(label@),
    {
        match find_label(&self.prefill, label) {
            Some(i) => {
                proof {
                    lemma_noted(pool_view(self.prefill@), label@, zero(), i as int);
                }
                return self.prefill[i].topology().clone();
            },
            None => {
                proof {
                    lemma_not_noted(pool_view(self.prefill@), label@, zero());
                }
            },
        }
        match find_label(&self.decode, label) {
            Some(i) => {
                proof {
                    lemma_noted(pool_view(self.decode@), label@, zero(), i as int);
                }
                self.decode[i].topology().clone()
            },
            None => {
                proof {
                    lemma_not_noted(pool_view(self.decode@), label@, zero());
                }
                TopologyId::default()
            },
        }
    }

    /// The cheapest backend of a pool under an optional memory-pressure penalty.
    pub fn pick_with_phi<F: Fn(Real) -> Real + Copy>(
        &self,
        phase: Phase,
        phi: Option<BarrierFactor>,
        ln: F,
        events: &mut ClampEvents,
    ) -> (r: Option<usize>)
        requires
            is_function(ln),
        ensures
            chosen(r) == choice(
                barrier_logs(
                    self@.pool(phase),
                    ln,
                    match phi {
                        Some(b) => seq![b.factor()],
                        None => Seq::empty(),
                    },
                    self@.current.pi,
                    phase == Phase::Prefill,
                ),
            ),
            r matches Some(i) ==> i < self@.pool(phase).len(),
            *final(events) == old(events).plus(
                barrier_choice_clamps(
                    self@.pool(phase),
                    ln,
                    match phi {
                        Some(b) => seq![b.factor()],
                        None => Seq::empty(),
                    },
                    self@.current.pi,
                    phase == Phase::Prefill,
                ),
            ),
    {
        let pi: Real = self.dataplane.read_pi();
        let mut barriers: Vec<BarrierFactor> = Vec::new();
        match phi {
            Some(b) => {
                barriers.push(b);
                assert(penalties(barriers@) =~= seq![b.factor()]);
            },
            None => {
                assert(penalties(barriers@) =~= Seq::<Real>::empty());
            },
        }
        match phase {
            Phase::Prefill => select_with_barriers_pi(
                &self.prefill,
                barriers.as_slice(),
                pi,
                true,
                ln,
                events,
            ),
            Phase::Decode => select_with_barriers_pi(
                &self.decode,
                barriers.as_slice(),
                pi,
                false,
                ln,
                events,
            ),
        }
    }

    /// The cheapest backend of a pool.
    pub fn pick<F: Fn(Real) -> Real + Copy>(&self, phase: Phase, ln: F) -> (r: Option<usize>)
        requires
            is_function(ln),
        ensures
            chosen(r) == self@.cheapest(phase, ln),
            r matches Some(i) ==> i < self@.pool(phase).len(),
    {
        let pi: Real = self.dataplane.read_pi();
        match phase {
            Phase::Prefill => select_by_queue(&self.prefill, pi, true, ln),
            Phase::Decode => select_by_queue(&self.decode, pi, false, ln),
        }
    }

    /// The cheapest backend for a request that prefills and decodes in one place.
    pub fn pick_colocated<F: Fn(Real) -> Real + Copy>(&self, ln: F) -> (r: Option<usize>)
        requires
            is_function(ln),
        ensures
            chosen(r) == self@.cheapest(self@.colocated_phase, ln),
            r matches Some(i) ==> i < self@.pool(self@.colocated_phase).len(),
    {
        self.pick(self.colocated_phase, ln)
    }

    fn note_fastpath_misroute(&mut self, prompt_tokens: u64)
        requires
            old(self).wf(),
        ensures
            final(self).wf(),
            final(self)@ == old(self)@.after_misroute(prompt_tokens),
    {
        if prompt_tokens <= ROUTING_SHORT_CONTEXT_TOKENS && prompt_tokens * 100
            / ROUTING_SHORT_CONTEXT_TOKENS >= 80 {
            let fraction: Real = to_share(
                Real::from_u64(prompt_tokens).over(Real::from_u64(ROUTING_SHORT_CONTEXT_TOKENS)),
            );
            self.control.fastpath_misroute_sum = self.control.fastpath_misroute_sum.plus(fraction);
            self.control.fastpath_misroute_samples =
            self.control.fastpath_misroute_samples.wrapping_add(1);
        }
    }

    fn take_disaggregated(
        &mut self,
        prefill: usize,
        prompt_tokens: u64,
        ids: &mut IdSource,
    ) -> (r: RoutePath)
        requires
            old(self).wf(),
        ensures
            final(self).wf(),
            r == old(self)@.disaggregated(prefill as int, prompt_tokens, old(ids).upcoming()),
            final(ids).upcoming() == wrapping_next(old(ids).upcoming()),
            final(self)@ == old(self)@.after_path(r),
    {
        self.disagg_routes = self.disagg_routes.wrapping_add(1);
        self.note_fastpath_misroute(prompt_tokens);
        RoutePath::Disaggregated {
            prefill,
            request_id: RequestId::new(ids),
            prompt_tokens,
        }
    }

    /// Decides where a request goes and counts it.
    pub fn route_impl<F: Fn(Real) -> Real + Copy>(
        &mut self,
        head: &[u8],
        warmth: Option<&WarmthView>,
        ln: F,
        ids: &mut IdSource,
        events: &mut ClampEvents,
    ) -> (r: Result<RoutePath, RouteError>)
        requires
            old(self).wf(),
            is_function(ln),
            fits(warmth, old(self)@.prefill.len(), old(self)@.decode.len()),
        ensures
            final(self).wf(),
            match r {
                Ok(path) => {
                    &&& old(self)@.routed(head@, warmth, ln, old(ids).upcoming()) == Some(path)
                    &&& final(self)@ == old(self)@.after_path(path)
                },
                Err(e) => {
                    &&& e is NoBackend
                    &&& old(self)@.routed(head@, warmth, ln, old(ids).upcoming()) is None
                    &&& final(self)@ == old(self)@
                },
            },
            final(ids).upcoming() == next_id(old(ids).upcoming(), taken_path(r)),
            *final(events) == old(events).plus(old(self)@.route_clamps(head@, warmth, ln)),
    {
        proof {
            counts_add_up(*old(events), 0, 0);
        }
        if is_decode_only(head) {
            return match self.pick(Phase::Decode, ln) {
                Some(backend) => {
                    self.disagg_routes = self.disagg_routes.wrapping_add(1);
                    Ok(RoutePath::DecodeOnly { backend })
                },
                None => Err(RouteError::NoBackend),
            };
        }
        let prompt_tokens: u64 = estimate_prompt_tokens(head);
        if prompt_tokens <= ROUTING_SHORT_CONTEXT_TOKENS {
            if let Some(prefill) = warmth_override_target(warmth) {
                return Ok(self.take_disaggregated(prefill, prompt_tokens, ids));
            }
            return match self.pick_colocated(ln) {
                Some(backend) => {
                    self.colocated_routes = self.colocated_routes.wrapping_add(1);
                    Ok(RoutePath::Colocated { phase: self.colocated_phase, backend })
                },
                None => Err(RouteError::NoBackend),
            };
        }
        let pi: Real = self.dataplane.read_pi();
        let picked: Option<usize> = match warmth {
            Some(v) => {
                let strengths: Vec<Option<Real>> = measured_strengths(&v.prefill);
                select_prefill_with_identity_pi(&self.prefill, Some(&strengths), pi, ln, events)
            },
            None => select_prefill_with_identity_pi(&self.prefill, None, pi, ln, events),
        };
        match picked {
            Some(prefill) => Ok(self.take_disaggregated(prefill, prompt_tokens, ids)),
            None => Err(RouteError::NoBackend),
        }
    }

    /// Routes a request and runs the control tick that follows. `warmth` is what the request may
    /// use: under [`Router::isolation_key`] only the warmth of its own domain.
    pub fn route<F: Fn(Real) -> Real + Copy, G: Fn(Real) -> Real + Copy>(
        &mut self,
        head: &[u8],
        warmth: Option<&WarmthView>,
        now: Moment,
        ln: F,
        exp: G,
        ids: &mut IdSource,
        events: &mut ClampEvents,
    ) -> (r: Result<(RoutePath, TickOutcome), RouteError>)
        requires
            old(self).wf(),
            is_function(ln),
            is_function(exp),
            fits(warmth, old(self)@.prefill.len(), old(self)@.decode.len()),
        ensures
            final(self).wf(),
            routes(
                old(self)@,
                head@,
                warmth,
                now,
                ln,
                exp,
                old(ids).upcoming(),
                final(self)@,
                r,
            ),
            final(ids).upcoming() == next_id(old(ids).upcoming(), routed_path(r)),
            *final(events) == old(events).plus(old(self)@.route_clamps(head@, warmth, ln)),
    {
        let path: RoutePath = match self.route_impl(head, warmth, ln, ids, events) {
            Ok(p) => p,
            Err(e) => {
                return Err(e);
            },
        };
        let tokens: Option<u64> = match path {
            RoutePath::Colocated { .. } => Some(estimate_prompt_tokens(head)),
            RoutePath::Disaggregated { prompt_tokens, .. } => Some(prompt_tokens),
            RoutePath::DecodeOnly { .. } => None,
        };
        let ghost counted = old(self)@.route_clamps(head@, warmth, ln);
        let tick: TickOutcome = self.deferred_control_tick(
            tokens,
            false,
            now,
            warmth,
            ln,
            exp,
            events,
        );
        proof {
            reveal(RouterState::tick_clamps);
            counts_add_up(*old(events), counted, 0);
        }
        Ok((path, tick))
    }
}

impl Router {
    /// Checks the hand-off of a finished prefill and reserves its bytes.
    fn admit_handoff(
        &mut self,
        signals: &PrefillSignals,
        response: &[u8],
        label: &str,
        now_ns: u64,
    ) -> (r: Result<(Option<HandoffDescriptor>, Option<ReservationGuard>), RouteError>)
        requires
            old(self).wf(),
            footprint_countable(
                signals.prompt_tokens as nat,
                old(self)@.bytes_per_token as nat,
            ),
        ensures
            final(self).wf(),
            final(self)@ == old(self)@.after_admission(
                response@,
                signals.request_id.spec_raw(),
                signals.prompt_tokens,
                label@,
                now_ns,
            ),
            match r {
                Ok((h, g)) => {
                    &&& old(self)@.admission(
                        response@,
                        signals.request_id.spec_raw(),
                        signals.prompt_tokens,
                        label@,
                    ) == Ok::<Option<Handoff>, Refusal>(handoff_view(h))
                    &&& guard_id(g) == match h {
                        Some(d) => Some(d.request_id),
                        None => None,
                    }
                },
                Err(e) => {
                    &&& old(self)@.admission(
                        response@,
                        signals.request_id.spec_raw(),
                        signals.prompt_tokens,
                        label@,
                    ) is Err
                    &&& refuses(
                        e,
                        old(self)@.admission(
                            response@,
                            signals.request_id.spec_raw(),
                            signals.prompt_tokens,
                            label@,
                        )->Err_0,
                    )
                },
            },
    {
        if self.ledger.is_none() || self.handoffs.is_none() {
            return Ok((None, None));
        }
        let id: u64 = signals.request_id.raw();
        let handoff: HandoffDescriptor = match parse_prefill_handoff(response, id, label) {
            Some(h) => h,
            None => {
                return Err(RouteError::HandoffMissing);
            },
        };
        if !handoff.is_valid() {
            return Err(RouteError::HandoffMissing);
        }
        let expected: u64 = kv_breakdown(signals.prompt_tokens, self.bytes_per_token).kv_reserved;
        let ceiling: u64 = saturating_mul_u64(expected, KV_HANDOFF_BYTE_CEILING_MULTIPLE);
        if handoff.byte_len < expected || handoff.byte_len > ceiling {
            return Err(RouteError::HandoffMissing);
        }
        match &mut self.ledger {
            Some(ledger) => {
                match ledger.try_reserve_from(Some(label), id, handoff.byte_len, now_ns) {
                    Ok(guard) => Ok((Some(handoff), Some(guard))),
                    Err(_) => Err(RouteError::KvAdmitRejected),
                }
            },
            None => Err(RouteError::HandoffMissing),
        }
    }

    /// Folds the time of a prefill into what was measured of its backend.
    fn note_prefill_wall(&mut self, label: &str, wall_ns: u128)
        requires
            old(self).wf(),
        ensures
            final(self).wf(),
            final(self)@ == old(self)@.after_measurement(label@, wall_ns),
    {
        let ghost s = self@;
        let secs: Real = Real::seconds_from_nanos(wall_ns);
        match find_label(&self.prefill, label) {
            Some(i) => {
                proof {
                    lemma_noted(s.prefill, label@, secs, i as int);
                }
                self.prefill[i].note_observed_seconds(secs);
                assert(self@.prefill =~= s.prefill.update(
                    i as int,
                    s.prefill[i as int].after_measurement(secs),
                ));
            },
            None => {
                proof {
                    lemma_not_noted(s.prefill, label@, secs);
                }
            },
        }
    }

    /// The penalty for memory pressure, if it is above one.
    fn pressure_barriers(&self) -> (r: Vec<BarrierFactor>)
        requires
            self.wf(),
        ensures
            penalties(r@) == self@.phi_penalties(),
    {
        let mut out: Vec<BarrierFactor> = Vec::new();
        if let Some(ledger) = &self.ledger {
            let phi: BarrierFactor = ledger.phi_barrier();
            if Real::from_bits(ONE_BITS).lt(phi.get()) {
                out.push(phi);
            }
        }
        assert(penalties(out@) =~= self@.phi_penalties());
        out
    }

    /// Picks the backend that decodes after prefill on a label.
    fn choose_decode<F: Fn(Real) -> Real + Copy, G: Fn(Real) -> Real + Copy>(
        &self,
        label: &str,
        kv_bytes: u64,
        warmth: Option<&WarmthView>,
        ln: F,
        exp: G,
        events: &mut ClampEvents,
    ) -> (r: Option<(Phase, usize)>)
        requires
            self.wf(),
            is_function(ln),
            is_function(exp),
            fits(warmth, self@.prefill.len(), self@.decode.len()),
        ensures
            match r {
                Some((phase, i)) => {
                    &&& self@.decode_choice(label@, kv_bytes, warmth, ln, exp) == Some(
                        (phase, i as int),
                    )
                    &&& i < self@.pool(phase).len()
                },
                None => self@.decode_choice(label@, kv_bytes, warmth, ln, exp) is None,
            },
            *final(events) == old(events).plus(
                self@.decode_choice_clamps(label@, kv_bytes, warmth, ln, exp),
            ),
    {
        proof {
            counts_add_up(*old(events), 0, 0);
            reveal(RouterState::decode_choice_clamps);
        }
        if self.decode.len() == 0 {
            return match self.pick_colocated(ln) {
                Some(i) => Some((self.colocated_phase, i)),
                None => None,
            };
        }
        let barriers: Vec<BarrierFactor> = self.pressure_barriers();
        let place: TopologyId = self.topology_for_label(label);
        let ctx = DecodePlacementCtx {
            prefill_label: label,
            pf_topo: &place,
            kv_bytes,
            use_rdma_routing: self.rdma_routing,
        };
        let pi: Real = self.dataplane.read_pi();
        let picked: Option<usize> = match warmth {
            Some(v) => {
                let strengths: Vec<Option<Real>> = measured_strengths(&v.decode);
                select_decode_with_pi(
                    &ctx,
                    &self.decode,
                    Some(&strengths),
                    barriers.as_slice(),
                    pi,
                    ln,
                    exp,
                    events,
                )
            },
            None => select_decode_with_pi(
                &ctx,
                &self.decode,
                None,
                barriers.as_slice(),
                pi,
                ln,
                exp,
                events,
            ),
        };
        match picked {
            Some(i) => Some((Phase::Decode, i)),
            None => None,
        }
    }

    fn label_of(&self, phase: Phase, backend: usize) -> (r: String)
        requires
            backend < self@.pool(phase).len(),
        ensures
            r@ == self@.pool(phase)[backend as int].label,
    {
        match phase {
            Phase::Prefill => self.prefill[backend].label().to_owned(),
            Phase::Decode => self.decode[backend].label().to_owned(),
        }
    }

    /// Places decode after a finished prefill, up to the transfer of its hand-off: checks the
    /// hand-off, reserves its bytes and picks the backend. Without a backend the reservation is
    /// given back.
    pub fn place_decode<F: Fn(Real) -> Real + Copy, G: Fn(Real) -> Real + Copy>(
        &mut self,
        signals: &PrefillSignals,
        response: &[u8],
        label: &str,
        warmth: Option<&WarmthView>,
        now: Moment,
        ln: F,
        exp: G,
        events: &mut ClampEvents,
    ) -> (r: Result<PendingPlacement, RouteError>)
        requires
            old(self).wf(),
            is_function(ln),
            is_function(exp),
            fits(warmth, old(self)@.prefill.len(), old(self)@.decode.len()),
            footprint_countable(
                signals.prompt_tokens as nat,
                old(self)@.bytes_per_token as nat,
            ),
        ensures
            final(self).wf(),
            *final(events) == old(events).plus(
                old(self)@.placing_clamps(
                    *signals,
                    response@,
                    label@,
                    now.now_ns,
                    warmth,
                    ln,
                    exp,
                ),
            ),
            ({
                let s = old(self)@;
                let id = signals.request_id.spec_raw();
                let placing = s.placing(*signals, response@, label@, now.now_ns);
                match s.admission(response@, id, signals.prompt_tokens, label@) {
                    Err(why) => {
                        &&& final(self)@ == s.after_admission(
                            response@,
                            id,
                            signals.prompt_tokens,
                            label@,
                            now.now_ns,
                        )
                        &&& r is Err
                        &&& refuses(r->Err_0, why)
                    },
                    Ok(h) => match placing.decode_choice(
                        label@,
                        s.bytes_to_move(h, signals.prompt_tokens),
                        warmth,
                        ln,
                        exp,
                    ) {
                        None => {
                            &&& final(self)@ == placing.after_abandoned(h)
                            &&& r is Err
                            &&& r->Err_0 is NoBackend
                        },
                        Some((phase, i)) => {
                            &&& final(self)@ == placing
                            &&& r is Ok
                            &&& r->Ok_0.phase == phase
                            &&& r->Ok_0.backend == i
                            &&& 0 <= i < placing.pool(phase).len()
                            &&& handoff_view(r->Ok_0.handoff) == addressed(
                                h,
                                placing.pool(phase)[i].label,
                            )
                            &&& guard_id(r->Ok_0.reservation) == match h {
                                Some(x) => Some(x.request_id),
                                None => None,
                            }
                        },
                    },
                }
            }),
    {
        let ghost s = self@;
        proof {
            counts_add_up(*old(events), 0, 0);
        }
        let (handoff, reservation) = match self.admit_handoff(
            signals,
            response,
            label,
            now.now_ns,
        ) {
            Ok(p) => p,
            Err(e) => {
                return Err(e);
            },
        };
        proof {
            lemma_noted_len(self@.prefill, label@, seconds_of_nanos(signals.prefill_wall_ns as nat));
        }
        self.note_prefill_wall(label, signals.prefill_wall_ns);
        let ghost placing = self@;
        let kv_bytes: u64 = match &handoff {
            Some(h) => h.byte_len,
            None => kv_breakdown(signals.prompt_tokens, self.bytes_per_token).kv_reserved,
        };
        let ghost h = handoff_view(handoff);
        match self.choose_decode(label, kv_bytes, warmth, ln, exp, events) {
            Some((phase, backend)) => {
                let addressed: Option<HandoffDescriptor> = match handoff {
                    Some(mut d) => {
                        d.decode_label = Some(self.label_of(phase, backend));
                        Some(d)
                    },
                    None => None,
                };
                Ok(PendingPlacement { phase, backend, reservation, handoff: addressed })
            },
            None => {
                if let Some(guard) = reservation {
                    match &mut self.ledger {
                        Some(ledger) => {
                            guard.release(ledger);
                        },
                        None => {},
                    }
                }
                Err(RouteError::NoBackend)
            },
        }
    }

    fn record_transfer_row(&mut self, sample: RdmaCostShadowSample)
        requires
            old(self).wf(),
        ensures
            final(self).wf(),
            final(self)@ == (RouterState {
                control: ControlState {
                    rdma_cost_shadow: push_bounded(
                        old(self)@.control.rdma_cost_shadow,
                        SHADOW_SAMPLES as nat,
                        sample@,
                    ),
                    ..old(self)@.control
                },
                ..old(self)@
            }),
    {
        proof {
            lemma_rows_pushed(
                self.control.rdma_cost_shadow@,
                self@.control.rdma_cost_shadow,
                |s: RdmaCostShadowSample| s@,
                SHADOW_SAMPLES as nat,
                sample,
            );
        }
        self.control.rdma_cost_shadow.record(sample);
    }

    fn record_prefill_row(&mut self, sample: CorrectorShadowSample)
        requires
            old(self).wf(),
        ensures
            final(self).wf(),
            final(self)@ == (RouterState {
                control: ControlState {
                    corrector_shadow: push_bounded(
                        old(self)@.control.corrector_shadow,
                        SHADOW_SAMPLES as nat,
                        sample@,
                    ),
                    ..old(self)@.control
                },
                ..old(self)@
            }),
    {
        proof {
            lemma_rows_pushed(
                self.control.corrector_shadow@,
                self@.control.corrector_shadow,
                |s: CorrectorShadowSample| s@,
                SHADOW_SAMPLES as nat,
                sample,
            );
        }
        self.control.corrector_shadow.record(sample);
    }

    /// Publishes a hand-off and records its transfer.
    fn finish_handoff<F: Fn(Real) -> Real + Copy>(
        &mut self,
        handoff: HandoffDescriptor,
        label: &str,
        phase: Phase,
        backend: usize,
        outcome: TransferOutcome,
        ln: F,
    )
        requires
            old(self).wf(),
            is_function(ln),
            backend < old(self)@.pool(phase).len(),
            handoff@.decode == Some(old(self)@.pool(phase)[backend as int].label),
        ensures
            final(self).wf(),
            final(self)@ == old(self)@.after_handoff(
                Handoff { decode: None, ..handoff@ },
                label@,
                old(self)@.pool(phase)[backend as int],
                outcome,
                ln,
            ),
    {
        let ghost s = self@;
        let kv_bytes: u64 = handoff.byte_len;
        if self.handoffs.is_none() {
            return;
        }
        match &mut self.handoffs {
            Some(registry) => {
                registry.publish(handoff);
                registry.record_transfer(outcome.bytes, outcome.wall_ns);
            },
            None => {},
        }
        let dc_label: String = self.label_of(phase, backend);
        if !same_text(label, dc_label.as_str()) {
            let pf_place: TopologyId = self.topology_for_label(label);
            let dc_place: TopologyId = match phase {
                Phase::Prefill => self.prefill[backend].topology().clone(),
                Phase::Decode => self.decode[backend].topology().clone(),
            };
            let sample = RdmaCostShadowSample {
                pf_label: label.to_owned(),
                dc_label,
                distance: rdma_distance(&pf_place, &dc_place),
                kv_bytes,
                analytic_transfer_ln: rdma_transfer_ln(kv_bytes, &pf_place, &dc_place, ln),
                flat_penalty_ln: evaluate(ln, Real::from_bits(ROUTING_TRANSFER_PENALTY_BITS)),
                observed_transfer_secs: Real::seconds_from_nanos(outcome.wall_ns),
            };
            self.record_transfer_row(sample);
        }
    }

    /// Logs a prefill against its prediction.
    fn log_prefill<F: Fn(Real) -> Real + Copy>(
        &mut self,
        signals: &PrefillSignals,
        phase: Phase,
        backend: usize,
        warmth: Option<&WarmthView>,
        ln: F,
        events: &mut ClampEvents,
    )
        requires
            old(self).wf(),
            is_function(ln),
            backend < old(self)@.pool(phase).len(),
            fits(warmth, old(self)@.prefill.len(), old(self)@.decode.len()),
        ensures
            final(self).wf(),
            final(self)@ == old(self)@.after_prefill_row(
                *signals,
                phase,
                backend as int,
                warmth,
                ln,
            ),
            *final(events) == old(events).plus(
                old(self)@.log_clamps(phase, backend as int, warmth),
            ),
    {
        proof {
            reveal(RouterState::log_clamps);
        }
        let barriers: Vec<BarrierFactor> = self.pressure_barriers();
        assert(penalties(barriers@).len() == barriers@.len());
        let pool_pi: Real = self.dataplane.read_pi();
        let strength: Option<Real> = match warmth {
            Some(v) => match phase {
                Phase::Decode => Some(v.decode[backend]),
                Phase::Prefill => Some(v.prefill_as_decode[backend]),
            },
            None => None,
        };
        let analytic_ln: Real = match phase {
            Phase::Prefill => self.prefill[backend].cost_with_warmth_pi(
                barriers.as_slice(),
                strength,
                true,
                pool_pi,
                ln,
                events,
            ).ln(),
            Phase::Decode => self.decode[backend].cost_with_warmth_pi(
                barriers.as_slice(),
                strength,
                true,
                pool_pi,
                ln,
                events,
            ).ln(),
        };
        let sample = CorrectorShadowSample {
            prompt_tokens: signals.prompt_tokens,
            analytic_ln,
            observed_us: micros(signals.prefill_wall_ns),
            pool_pi,
            backend_label: self.label_of(phase, backend),
        };
        self.record_prefill_row(sample);
    }

    /// Completes a placement once its hand-off was transferred: publishes and records the hand-off,
    /// logs the prefill and runs the control tick.
    pub fn complete_placement<F: Fn(Real) -> Real + Copy, G: Fn(Real) -> Real + Copy>(
        &mut self,
        signals: &PrefillSignals,
        label: &str,
        placement: PendingPlacement,
        outcome: TransferOutcome,
        warmth: Option<&WarmthView>,
        now: Moment,
        ln: F,
        exp: G,
        events: &mut ClampEvents,
    ) -> (r: DecodePlacement)
        requires
            old(self).wf(),
            is_function(ln),
            is_function(exp),
            fits(warmth, old(self)@.prefill.len(), old(self)@.decode.len()),
            placement.backend < old(self)@.pool(placement.phase).len(),
            placement.handoff matches Some(d) ==> d@.decode == Some(
                old(self)@.pool(placement.phase)[placement.backend as int].label,
            ),
        ensures
            final(self).wf(),
            r.phase == placement.phase,
            r.backend == placement.backend,
            r.reservation == placement.reservation,
            (final(self)@, r.tick) == old(self)@.continued(
                *signals,
                label@,
                addressed_from(placement.handoff),
                placement.phase,
                placement.backend as int,
                outcome,
                now,
                warmth,
                ln,
                exp,
            ),
            *final(events) == old(events).plus(
                old(self)@.continuation_clamps(
                    *signals,
                    placement.phase,
                    placement.backend as int,
                    warmth,
                    ln,
                ),
            ),
    {
        let ghost s = self@;
        let phase: Phase = placement.phase;
        let backend: usize = placement.backend;
        match placement.handoff {
            Some(d) => {
                self.finish_handoff(d, label, phase, backend, outcome, ln);
            },
            None => {},
        }
        proof {
            reveal(RouterState::log_clamps);
            assert(self@.log_clamps(phase, backend as int, warmth) == s.log_clamps(
                phase,
                backend as int,
                warmth,
            ));
        }
        self.log_prefill(signals, phase, backend, warmth, ln, events);
        proof {
            lemma_same_targets(s, self@, warmth, ln);
            counts_add_up(
                *old(events),
                s.log_clamps(phase, backend as int, warmth),
                s.tick_clamps(Some(signals.prompt_tokens), true, warmth, ln),
            );
        }
        let tick: TickOutcome = self.deferred_control_tick(
            Some(signals.prompt_tokens),
            true,
            now,
            warmth,
            ln,
            exp,
            events,
        );
        DecodePlacement { phase, backend, reservation: placement.reservation, tick }
    }

    /// Continues a request after prefill: checks and reserves its hand-off, places decode, has the
    /// hand-off transferred and runs the control tick. The transport is handed the hand-off as it
    /// is published, addressed to the backend that decodes, and the time that prefill took; what it
    /// reports is what is recorded.
    pub fn on_prefill_complete<
        F: Fn(Real) -> Real + Copy,
        G: Fn(Real) -> Real + Copy,
        T: HandoffTransport,
    >(
        &mut self,
        signals: &PrefillSignals,
        prefill_response: &[u8],
        prefill_label: &str,
        transport: &T,
        warmth: Option<&WarmthView>,
        now: Moment,
        ln: F,
        exp: G,
        events: &mut ClampEvents,
    ) -> (r: Result<DecodePlacement, RouteError>)
        requires
            old(self).wf(),
            is_function(ln),
            is_function(exp),
            fits(warmth, old(self)@.prefill.len(), old(self)@.decode.len()),
            footprint_countable(
                signals.prompt_tokens as nat,
                old(self)@.bytes_per_token as nat,
            ),
        ensures
            final(self).wf(),
            exists|o: TransferOutcome|
                {
                    &&& completes(
                        #[trigger] old(self)@.completed(
                            *signals,
                            prefill_response@,
                            prefill_label@,
                            o,
                            now,
                            warmth,
                            ln,
                            exp,
                        ),
                        final(self)@,
                        r,
                    )
                    &&& r matches Ok(p) ==> transferred(
                        transport,
                        old(self)@.handed_over(
                            *signals,
                            prefill_response@,
                            prefill_label@,
                            now.now_ns,
                            p.phase,
                            p.backend as int,
                        ),
                        signals.prefill_wall_ns,
                        o,
                    )
                },
            *final(events) == old(events).plus(
                old(self)@.completion_clamps(
                    *signals,
                    prefill_response@,
                    prefill_label@,
                    now.now_ns,
                    warmth,
                    ln,
                    exp,
                    match r {
                        Ok(p) => Some((p.phase, p.backend as int)),
                        Err(_) => None,
                    },
                ),
            ),
    {
        let ghost s = self@;
        let nothing = TransferOutcome { bytes: 0, wall_ns: 0 };
        let pending: PendingPlacement = match self.place_decode(
            signals,
            prefill_response,
            prefill_label,
            warmth,
            now,
            ln,
            exp,
            events,
        ) {
            Ok(p) => p,
            Err(e) => {
                assert(completes(
                    s.completed(
                        *signals,
                        prefill_response@,
                        prefill_label@,
                        nothing,
                        now,
                        warmth,
                        ln,
                        exp,
                    ),
                    self@,
                    Err::<DecodePlacement, RouteError>(e),
                ));
                return Err(e);
            },
        };
        let outcome: TransferOutcome = match &pending.handoff {
            Some(d) => transport.transfer(d, signals.prefill_wall_ns),
            None => nothing,
        };
        let ghost id = signals.request_id.spec_raw();
        let ghost h = s.admission(
            prefill_response@,
            id,
            signals.prompt_tokens,
            prefill_label@,
        )->Ok_0;
        proof {
            lemma_noted_len(
                s.after_admission(
                    prefill_response@,
                    id,
                    signals.prompt_tokens,
                    prefill_label@,
                    now.now_ns,
                ).prefill,
                prefill_label@,
                seconds_of_nanos(signals.prefill_wall_ns as nat),
            );
            assert(addressed_from(pending.handoff) == h);
        }
        let ghost moved = s.handed_over(
            *signals,
            prefill_response@,
            prefill_label@,
            now.now_ns,
            pending.phase,
            pending.backend as int,
        );
        assert(transferred(transport, moved, signals.prefill_wall_ns, outcome)) by {
            assert(handoff_view(pending.handoff) == moved);
        }
        let r: DecodePlacement = self.complete_placement(
            signals,
            prefill_label,
            pending,
            outcome,
            warmth,
            now,
            ln,
            exp,
            events,
        );
        proof {
            let placing = s.placing(*signals, prefill_response@, prefill_label@, now.now_ns);
            counts_add_up(
                *old(events),
                s.placing_clamps(
                    *signals,
                    prefill_response@,
                    prefill_label@,
                    now.now_ns,
                    warmth,
                    ln,
                    exp,
                ),
                placing.continuation_clamps(*signals, r.phase, r.backend as int, warmth, ln),
            );
        }
        assert(completes(
            s.completed(
                *signals,
                prefill_response@,
                prefill_label@,
                outcome,
                now,
                warmth,
                ln,
                exp,
            ),
            self@,
            Ok::<DecodePlacement, RouteError>(r),
        ));
        Ok(r)
    }
}

/// Whether a transport moved a hand-off, where there is one, and reported an outcome.
pub open spec fn transferred<T: HandoffTransport>(
    transport: &T,
    h: Option<Handoff>,
    prefill_wall_ns: u128,
    o: TransferOutcome,
) -> bool {
    h matches Some(x) ==> transport.reports(x, prefill_wall_ns, o)
}

/// The hand-off of a placement as it was announced.
pub open spec fn addressed_from(h: Option<HandoffDescriptor>) -> Option<Handoff> {
    match h {
        Some(d) => Some(Handoff { decode: None, ..d@ }),
        None => None,
    }
}

/// Whether a router and a result are what a continuation leads to.
pub open spec fn completes(
    wanted: (RouterState, Result<PlacementState, Refusal>),
    after: RouterState,
    r: Result<DecodePlacement, RouteError>,
) -> bool {
    &&& after == wanted.0
    &&& match wanted.1 {
        Ok(p) => r is Ok && r->Ok_0@ == p,
        Err(why) => r is Err && refuses(r->Err_0, why),
    }
}

/// A measurement keeps the size of a pool.
pub proof fn lemma_noted_len(pool: Seq<BackendState>, label: Seq<char>, secs: Real)
    ensures
        noted(pool, label, secs).len() == pool.len(),
    decreases pool.len(),
{
    if pool.len() > 0 && pool[0].label != label {
        lemma_noted_len(pool.drop_first(), label, secs);
    }
}

/// A request whose length is neither declared nor in its path never takes the fast path.
pub proof fn unknown_length_never_colocates<F: Fn(Real) -> Real>(
    s: RouterState,
    head: Seq<u8>,
    w: Option<&WarmthView>,
    ln: F,
    id: u64,
)
    requires
        crate::http::declared_tokens(head) is None,
        crate::http::path_tokens(head) is None,
    ensures
        s.routed(head, w, ln, id) matches Some(path) ==> !(path is Colocated),
{
}

/// Only short prompts are colocated, and a prompt beyond the threshold always goes through prefill.
pub proof fn fast_path_is_for_short_prompts<F: Fn(Real) -> Real>(
    s: RouterState,
    head: Seq<u8>,
    w: Option<&WarmthView>,
    ln: F,
    id: u64,
)
    ensures
        s.routed(head, w, ln, id) matches Some(path) ==> {
            &&& path is Colocated ==> estimated_tokens(head) <= ROUTING_SHORT_CONTEXT_TOKENS
            &&& !decode_only(head) && estimated_tokens(head) > ROUTING_SHORT_CONTEXT_TOKENS
                ==> path is Disaggregated
            &&& path is DecodeOnly <==> decode_only(head)
        },
{
}

/// A router with backends in both pools routes every request.
pub proof fn backends_answer_every_request<F: Fn(Real) -> Real>(
    s: RouterState,
    head: Seq<u8>,
    w: Option<&WarmthView>,
    ln: F,
    id: u64,
)
    requires
        s.prefill.len() > 0,
        s.decode.len() > 0,
    ensures
        s.routed(head, w, ln, id) is Some,
{
}

/// A prefill without a credible hand-off changes nothing at all when KV is accounted for.
pub proof fn missing_handoff_changes_nothing<F: Fn(Real) -> Real, G: Fn(Real) -> Real>(
    s: RouterState,
    signals: PrefillSignals,
    response: Seq<u8>,
    label: Seq<char>,
    o: TransferOutcome,
    m: Moment,
    w: Option<&WarmthView>,
    ln: F,
    exp: G,
)
    requires
        s.accounts_kv(),
        s.credible_handoff(
            response,
            signals.request_id.spec_raw(),
            signals.prompt_tokens,
            label,
        ) is None,
    ensures
        s.completed(signals, response, label, o, m, w, ln, exp) == (
            s,
            Err::<PlacementState, Refusal>(Refusal::HandoffMissing),
        ),
{
}

/// A hand-off that claims fewer bytes than its prompt needs, or implausibly many, is refused.
pub proof fn incredible_size_is_refused(
    s: RouterState,
    response: Seq<u8>,
    id: u64,
    tokens: u64,
    label: Seq<char>,
    h: Handoff,
)
    requires
        s.accounts_kv(),
        announced(response, id, label) == Some(h),
        h.byte_len < s.expected_bytes(tokens) || h.byte_len > saturating_product(
            s.expected_bytes(tokens) as nat,
            KV_HANDOFF_BYTE_CEILING_MULTIPLE as nat,
        ),
    ensures
        s.admission(response, id, tokens, label) == Err::<Option<Handoff>, Refusal>(
            Refusal::HandoffMissing,
        ),
        s.after_admission(response, id, tokens, label, 0) == s,
{
}

/// A refused or abandoned placement leaves every reservation of the ledger as it was.
pub proof fn refused_placement_reserves_nothing<F: Fn(Real) -> Real, G: Fn(Real) -> Real>(
    s: RouterState,
    signals: PrefillSignals,
    response: Seq<u8>,
    label: Seq<char>,
    o: TransferOutcome,
    m: Moment,
    w: Option<&WarmthView>,
    ln: F,
    exp: G,
)
    requires
        s.ledger matches Some(l) && l.valid(),
        s.completed(signals, response, label, o, m, w, ln, exp).1 is Err,
    ensures
        s.completed(signals, response, label, o, m, w, ln, exp).0.ledger is Some,
        s.completed(signals, response, label, o, m, w, ln, exp).0.ledger->0.reservations
            == s.ledger->0.reservations,
{
    let id = signals.request_id.spec_raw();
    if let Ok(Some(h)) = s.admission(response, id, signals.prompt_tokens, label) {
        crate::ledger::release_undoes_reserve(
            s.ledger->0,
            Some(label),
            id,
            h.byte_len,
            m.now_ns,
        );
    }
}

/// After a tick the snapshot served is younger than the heartbeat, and never an earlier one.
pub proof fn tick_keeps_snapshot_fresh<F: Fn(Real) -> Real, G: Fn(Real) -> Real>(
    s: RouterState,
    tokens: Option<u64>,
    sample: bool,
    m: Moment,
    w: Option<&WarmthView>,
    ln: F,
    exp: G,
)
    ensures
        age(s.ticked(tokens, sample, m, w, ln, exp).0.current, m.now_ms)
            < DATAPLANE_RCU_HEARTBEAT_MS,
        s.ticked(tokens, sample, m, w, ln, exp).0.current.generation >= s.current.generation,
{
    reveal(RouterState::after_rebalance);
    reveal(RouterState::after_heartbeat);
    reveal(RouterState::after_regret);
}

/// Without the application of shares a tick never changes the admission bucket, unless a kernel
/// program is attached.
pub proof fn shadow_tick_keeps_bucket<F: Fn(Real) -> Real, G: Fn(Real) -> Real>(
    s: RouterState,
    tokens: Option<u64>,
    sample: bool,
    m: Moment,
    w: Option<&WarmthView>,
    ln: F,
    exp: G,
)
    requires
        !s.actuation,
        !s.kernel_attached,
    ensures
        s.ticked(tokens, sample, m, w, ln, exp).0.bucket == s.bucket,
        s.ticked(tokens, sample, m, w, ln, exp).1 == idle_tick(),
{
    reveal(RouterState::after_rebalance);
    reveal(RouterState::after_heartbeat);
    reveal(RouterState::after_regret);
}

impl Router {
    /// Routes a request of a known identity. Warmth is measured under the cache domain that the
    /// registry resolves for the identity and under no other: `measure` is asked once, for that
    /// domain.
    pub fn route_with_identity<
        F: Fn(Real) -> Real + Copy,
        G: Fn(Real) -> Real + Copy,
        W: Fn(Option<CacheDomainKey>) -> Option<WarmthView>,
    >(
        &mut self,
        head: &[u8],
        identity: Option<&RequestIdentity>,
        measure: W,
        now: Moment,
        ln: F,
        exp: G,
        ids: &mut IdSource,
        events: &mut ClampEvents,
    ) -> (r: Result<(RoutePath, TickOutcome), RouteError>)
        requires
            old(self).wf(),
            is_function(ln),
            is_function(exp),
            forall|key: Option<CacheDomainKey>| call_requires(measure, (key,)),
            forall|key: Option<CacheDomainKey>, w: Option<WarmthView>|
                call_ensures(measure, (key,), w) ==> fits(
                    borrowed(w),
                    old(self)@.prefill.len(),
                    old(self)@.decode.len(),
                ),
        ensures
            final(self).wf(),
            exists|w: Option<WarmthView>|
                {
                    &&& #[trigger] call_ensures(
                        measure,
                        (isolated(old(self)@.groups, identity),),
                        w,
                    )
                    &&& routes(
                        old(self)@,
                        head@,
                        borrowed(w),
                        now,
                        ln,
                        exp,
                        old(ids).upcoming(),
                        final(self)@,
                        r,
                    )
                    &&& *final(events) == old(events).plus(
                        old(self)@.route_clamps(head@, borrowed(w), ln),
                    )
                },
            final(ids).upcoming() == next_id(old(ids).upcoming(), routed_path(r)),
    {
        let ghost s = self@;
        let key: Option<CacheDomainKey> = self.isolation_key(identity);
        let warmth: Option<WarmthView> = measure(key);
        let r = self.route(head, warmth.as_ref(), now, ln, exp, ids, events);
        assert(call_ensures(measure, (isolated(s.groups, identity),), warmth));
        assert(routes(
            s,
            head@,
            borrowed(warmth),
            now,
            ln,
            exp,
            old(ids).upcoming(),
            self@,
            r,
        ));
        r
    }
}

/// The cache domain whose warmth a request may use.
pub open spec fn isolated(
    groups: Option<Map<u64, Group>>,
    identity: Option<&RequestIdentity>,
) -> Option<CacheDomainKey> {
    match (groups, identity) {
        (Some(g), Some(id)) => Some(domain_key(g, id.tenant, id.group, id.content_fp)),
        _ => None,
    }
}

/// Measured warmth by reference.
pub open spec fn borrowed(w: Option<WarmthView>) -> Option<&'static WarmthView> {
    match w {
        Some(v) => Some(&v),
        None => None,
    }
}

/// The path that was taken, if any.
pub open spec fn taken_path(r: Result<RoutePath, RouteError>) -> Option<RoutePath> {
    match r {
        Ok(path) => Some(path),
        Err(_) => None,
    }
}

/// The path that a request was routed on, if any.
pub open spec fn routed_path(
    r: Result<(RoutePath, TickOutcome), RouteError>,
) -> Option<RoutePath> {
    match r {
        Ok((path, _)) => Some(path),
        Err(_) => None,
    }
}

/// The id handed out next: only a path through prefill takes one.
pub open spec fn next_id(id: u64, path: Option<RoutePath>) -> u64 {
    if path is Some && path->0 is Disaggregated {
        wrapping_next(id)
    } else {
        id
    }
}

/// Two requests that go through prefill one after the other never have the same id, whichever
/// routers they go through, as long as these draw from one source.
pub proof fn requests_never_share_an_id<F: Fn(Real) -> Real>(
    a: RouterState,
    b: RouterState,
    heads: (Seq<u8>, Seq<u8>),
    w: Option<&WarmthView>,
    v: Option<&WarmthView>,
    ln: F,
    id: u64,
)
    ensures
        ({
            let first = a.routed(heads.0, w, ln, id);
            let second = b.routed(heads.1, v, ln, next_id(id, first));
            first is Some && first->0 is Disaggregated && second is Some
                && second->0 is Disaggregated ==> first->0->Disaggregated_request_id
                != second->0->Disaggregated_request_id
        }),
{
}

/// Whether routing with some warmth leads to a router and a result.
pub open spec fn routes<F: Fn(Real) -> Real, G: Fn(Real) -> Real>(
    s: RouterState,
    head: Seq<u8>,
    w: Option<&WarmthView>,
    now: Moment,
    ln: F,
    exp: G,
    id: u64,
    after: RouterState,
    r: Result<(RoutePath, TickOutcome), RouteError>,
) -> bool {
    match r {
        Ok((path, tick)) => {
            &&& s.routed(head, w, ln, id) == Some(path)
            &&& (after, tick) == s.after_path(path).ticked(
                s.reported_tokens(path, head),
                false,
                now,
                w,
                ln,
                exp,
            )
        },
        Err(e) => {
            &&& e is NoBackend
            &&& s.routed(head, w, ln, id) is None
            &&& after == s
        },
    }
}

/// Someone outside a group, or with other content than the registered one, is measured in their own
/// cache domain: the warmth that the group shares is never asked for on their behalf.
pub proof fn outsiders_are_measured_alone(groups: Map<u64, Group>, identity: &RequestIdentity)
    requires
        ({
            let id = identity.group.spec_raw();
            !(groups.contains_key(id) && groups[id].members.contains(identity.tenant.spec_raw())
                && groups[id].template == identity.content_fp)
        }),
    ensures
        isolated(Some(groups), Some(identity)) matches Some(key) && !key.shared && key.owner
            == identity.tenant.spec_raw(),
{
}

/// Two tenants that do not share a group with the presented content never have one cache domain.
pub proof fn strangers_never_share_a_domain(
    groups: Map<u64, Group>,
    a: &RequestIdentity,
    b: &RequestIdentity,
)
    requires
        a.tenant.spec_raw() != b.tenant.spec_raw(),
        ({
            let id = a.group.spec_raw();
            !(groups.contains_key(id) && groups[id].members.contains(a.tenant.spec_raw())
                && groups[id].template == a.content_fp)
        }),
    ensures
        isolated(Some(groups), Some(a)) != isolated(Some(groups), Some(b)),
{
}

/// Without a registry or without an identity a request is routed by the plain warmth.
pub proof fn isolation_needs_registry_and_identity(
    groups: Option<Map<u64, Group>>,
    identity: Option<&RequestIdentity>,
)
    ensures
        isolated(groups, identity) is None <==> groups is None || identity is None,
{
}

/// A kernel program that is gone is noticed when the snapshot is due for its heartbeat, and from
/// then on every connection takes a token from the bucket.
pub proof fn lost_kernel_falls_back_to_bucket<F: Fn(Real) -> Real, G: Fn(Real) -> Real>(
    s: RouterState,
    tokens: Option<u64>,
    sample: bool,
    m: Moment,
    w: Option<&WarmthView>,
    ln: F,
    exp: G,
)
    requires
        s.kernel_attached,
        !m.kernel_alive,
        !s.actuation,
        age(s.current, m.now_ms) >= DATAPLANE_RCU_HEARTBEAT_MS,
    ensures
        ({
            let (after, tick) = s.ticked(tokens, sample, m, w, ln, exp);
            &&& tick.kernel_lost
            &&& !after.kernel_attached
            &&& after.admit_mode.takes_tokens(after.kernel_attached)
        }),
{
    reveal(RouterState::after_rebalance);
    reveal(RouterState::after_heartbeat);
    reveal(RouterState::after_regret);
}

/// A request placed with KV accounting holds exactly the bytes that its prefill announced, its
/// hand-off waits for the backend that decodes, and releasing it leaves the reservations as they
/// were.
pub proof fn placed_request_holds_its_bytes<F: Fn(Real) -> Real, G: Fn(Real) -> Real>(
    s: RouterState,
    signals: PrefillSignals,
    response: Seq<u8>,
    label: Seq<char>,
    o: TransferOutcome,
    m: Moment,
    w: Option<&WarmthView>,
    ln: F,
    exp: G,
)
    requires
        s.accounts_kv(),
        s.ledger->0.valid(),
        s.completed(signals, response, label, o, m, w, ln, exp).1 is Ok,
    ensures
        ({
            let id = signals.request_id.spec_raw();
            let (after, placed) = s.completed(signals, response, label, o, m, w, ln, exp);
            let h = s.credible_handoff(response, id, signals.prompt_tokens, label);
            let p = placed->Ok_0;
            &&& h is Some
            &&& p.reserved == Some(id)
            &&& after.ledger == Some(
                s.ledger->0.after_reserve(Some(label), id, h->0.byte_len, m.now_ns),
            )
            &&& after.ledger->0.reservations.contains_key(id)
            &&& after.ledger->0.reservations[id].bytes == h->0.byte_len
            &&& after.ledger->0.after_release(id).reservations == s.ledger->0.reservations
            &&& after.handoffs is Some
            &&& s.handed_over(signals, response, label, m.now_ns, p.phase, p.backend) is Some
            &&& after.handoffs->0.lookup(id) == s.handed_over(
                signals,
                response,
                label,
                m.now_ns,
                p.phase,
                p.backend,
            )
        }),
{
    reveal(RouterState::after_rebalance);
    reveal(RouterState::after_heartbeat);
    reveal(RouterState::after_regret);
    let id = signals.request_id.spec_raw();
    let h = s.credible_handoff(response, id, signals.prompt_tokens, label)->0;
    crate::ledger::release_undoes_reserve(s.ledger->0, Some(label), id, h.byte_len, m.now_ns);
}

/// What a transport reports of the hand-off it moved is what the transfer figures hold last.
pub proof fn reported_transfer_is_recorded<
    F: Fn(Real) -> Real,
    G: Fn(Real) -> Real,
    T: HandoffTransport,
>(
    s: RouterState,
    signals: PrefillSignals,
    response: Seq<u8>,
    label: Seq<char>,
    transport: &T,
    o: TransferOutcome,
    m: Moment,
    w: Option<&WarmthView>,
    ln: F,
    exp: G,
)
    requires
        s.accounts_kv(),
        s.completed(signals, response, label, o, m, w, ln, exp).1 matches Ok(p) && transferred(
            transport,
            s.handed_over(signals, response, label, m.now_ns, p.phase, p.backend),
            signals.prefill_wall_ns,
            o,
        ),
        o.bytes > 0,
    ensures
        ({
            let (after, placed) = s.completed(signals, response, label, o, m, w, ln, exp);
            let p = placed->Ok_0;
            let h = s.handed_over(signals, response, label, m.now_ns, p.phase, p.backend);
            &&& h is Some
            &&& transport.reports(h->0, signals.prefill_wall_ns, o)
            &&& after.handoffs->0.bytes.last() == o.bytes
            &&& after.handoffs->0.walls_us.last() == whole_micros(o.wall_ns)
        }),
{
    reveal(RouterState::after_rebalance);
    reveal(RouterState::after_heartbeat);
    reveal(RouterState::after_regret);
}

/// What the warmest backend at or above the threshold is.
proof fn lemma_warmest(strengths: Seq<Real>)
    requires
        forall|j: int| 0 <= j < strengths.len() ==> !(#[trigger] strengths[j]).is_nan(),
    ensures
        match warmest(strengths) {
            Some(i) => {
                &&& 0 <= i < strengths.len()
                &&& (Real { bits: ROUTING_SHORT_CONTEXT_WARMTH_OVERRIDE_BITS }).at_most(
                    strengths[i],
                )
                &&& forall|j: int|
                    0 <= j < strengths.len() ==> (#[trigger] strengths[j]).at_most(strengths[i])
                &&& forall|j: int| 0 <= j < i ==> (#[trigger] strengths[j]).below(strengths[i])
            },
            None => forall|j: int|
                0 <= j < strengths.len() ==> (#[trigger] strengths[j]).below(
                    Real { bits: ROUTING_SHORT_CONTEXT_WARMTH_OVERRIDE_BITS },
                ),
        },
    decreases strengths.len(),
{
    let limit = Real { bits: ROUTING_SHORT_CONTEXT_WARMTH_OVERRIDE_BITS };
    if strengths.len() > 0 {
        let rest = strengths.drop_last();
        let s = strengths.last();
        assert forall|j: int| 0 <= j < rest.len() implies !(#[trigger] rest[j]).is_nan() && rest[j]
            == strengths[j] by {
            assert(!strengths[j].is_nan());
        }
        assert(!strengths[strengths.len() - 1].is_nan());
        lemma_warmest(rest);
        let r = warmest(strengths);
        assert forall|j: int| 0 <= j < strengths.len() implies match r {
            Some(i) => (#[trigger] strengths[j]).at_most(strengths[i]) && (j < i
                ==> strengths[j].below(strengths[i])),
            None => strengths[j].below(limit),
        } by {
            if j < rest.len() {
                assert(rest[j] == strengths[j]);
            }
            if let Some(b) = warmest(rest) {
                assert(rest[b] == strengths[b]);
                if j < rest.len() {
                    assert(rest[j].at_most(rest[b]));
                }
            }
        }
    }
}

/// The override goes to the first backend with the largest strength of the pool, and only if that
/// strength reaches the threshold and the snapshot knows every backend. There is none only without
/// a snapshot, with a backend that the snapshot does not know, or with all strengths below the
/// threshold.
pub proof fn override_takes_the_warmest(v: &WarmthView)
    requires
        v.prefill_known@.len() == v.prefill@.len(),
        forall|j: int| 0 <= j < v.prefill@.len() ==> !(#[trigger] v.prefill@[j]).is_nan(),
    ensures
        override_target(None) is None,
        match override_target(Some(v)) {
            Some(i) => {
                &&& 0 <= i < v.prefill@.len()
                &&& forall|j: int| 0 <= j < v.prefill@.len() ==> #[trigger] v.prefill_known@[j]
                &&& (Real { bits: ROUTING_SHORT_CONTEXT_WARMTH_OVERRIDE_BITS }).at_most(
                    v.prefill@[i],
                )
                &&& forall|j: int|
                    0 <= j < v.prefill@.len() ==> (#[trigger] v.prefill@[j]).at_most(v.prefill@[i])
                &&& forall|j: int|
                    0 <= j < i ==> (#[trigger] v.prefill@[j]).below(v.prefill@[i])
            },
            None => {
                ||| exists|j: int| 0 <= j < v.prefill@.len() && !#[trigger] v.prefill_known@[j]
                ||| forall|j: int|
                    0 <= j < v.prefill@.len() ==> (#[trigger] v.prefill@[j]).below(
                        Real { bits: ROUTING_SHORT_CONTEXT_WARMTH_OVERRIDE_BITS },
                    )
            },
        },
{
    lemma_warmest(v.prefill@);
}

} // verus!
