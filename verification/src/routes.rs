//! Where requests go, said without the way it is found: what a path, a placement and the pressure
//! on the pools must satisfy.

use vstd::prelude::*;
use vstd::arithmetic::power2::{
    lemma2_to64, lemma2_to64_rest, lemma_pow2_adds, lemma_pow2_pos, pow2,
};
use crate::admission::scaled_capacity;
use crate::backend::{
    barrier_logs, decode_logs, decode_penalties, prefill_logs, warmth_reward, BackendState,
    PlacementView,
};
use crate::binary64::{
    lemma_count_is_exact, lemma_sum_value, lemma_units_of_power, of_nat, quotient,
    rank_extends_order, seconds_of_nanos, sum, units, zero, Real,
};
use crate::capacity::footprint_in_numbers;
use crate::demand::{is_signal, lemma_part};
use crate::factors::{apart, is_logarithm, is_penalty, lemma_extremes, phi_penalty_is_bounded};
use crate::handoff::{announced, TransferOutcome};
use crate::http::{decode_only, estimated_tokens};
use crate::kv::{block_tokens, reserved_bytes};
use crate::pairing::regret;
use crate::params::ROUTING_SHORT_CONTEXT_WARMTH_OVERRIDE_BITS;
use crate::pricing::{
    lemma_cost_is_a_number, lemma_plain_is_finite, separates, warmer_decode_is_chosen_first,
    warmth_of,
};
use crate::rcu::share;
use crate::rebalancer::{mean, shares, wanted_share, HALF_BITS};
use crate::rounding::HIDDEN_BIT;
use crate::router::{
    fits, lemma_not_noted, lemma_noted, lemma_noted_len, longest_queue, noted,
    override_takes_the_warmest, override_target, queue_pressure, Moment, Phase, PrefillSignals,
    Refusal, RoutePath, RouterState, WarmthView, QUEUE_MIDPOINT_BITS,
};
use crate::selection::{lowest, lowest_is_minimal, lowest_number, lowest_number_is_minimal};
use crate::topology::nowhere;

verus! {

/// Whether a backend is in a pool and costs no more than any other by queue and share alone.
pub open spec fn is_least<F: Fn(Real) -> Real>(
    pool: Seq<BackendState>,
    ln: F,
    pi: Real,
    prefill: bool,
    i: int,
) -> bool {
    &&& 0 <= i < pool.len()
    &&& forall|j: int|
        0 <= j < pool.len() ==> pool[i].cost_log(ln, Seq::empty(), None, pi, prefill).at_most(
            (#[trigger] pool[j]).cost_log(ln, Seq::empty(), None, pi, prefill),
        )
}

/// The warmth that a snapshot has of a prefill backend.
pub open spec fn prefill_warmth(w: Option<&WarmthView>, i: int) -> Option<Real> {
    match w {
        Some(v) => Some(v.prefill@[i]),
        None => None,
    }
}

/// Whether a backend is in the prefill pool and costs no more than any other when warmth counts.
pub open spec fn is_least_prefill<F: Fn(Real) -> Real>(
    pool: Seq<BackendState>,
    w: Option<&WarmthView>,
    ln: F,
    pi: Real,
    i: int,
) -> bool {
    &&& 0 <= i < pool.len()
    &&& forall|j: int|
        0 <= j < pool.len() ==> pool[i].cost_log(
            ln,
            Seq::empty(),
            warmth_reward(prefill_warmth(w, i)),
            pi,
            true,
        ).at_most(
            (#[trigger] pool[j]).cost_log(
                ln,
                Seq::empty(),
                warmth_reward(prefill_warmth(w, j)),
                pi,
                true,
            ),
        )
}

proof fn lemma_least<F: Fn(Real) -> Real>(
    pool: Seq<BackendState>,
    ln: F,
    pi: Real,
    prefill: bool,
)
    requires
        is_logarithm(ln),
        !pi.is_nan(),
        pool.len() > 0,
    ensures
        is_least(pool, ln, pi, prefill, lowest(barrier_logs(pool, ln, Seq::empty(), pi, prefill))),
{
    let costs = barrier_logs(pool, ln, Seq::empty(), pi, prefill);
    lowest_is_minimal(costs);
    let i = lowest(costs);
    lemma_plain_is_finite(pool[i], ln, pi, prefill);
    assert forall|j: int| 0 <= j < pool.len() implies pool[i].cost_log(
        ln,
        Seq::empty(),
        None,
        pi,
        prefill,
    ).at_most((#[trigger] pool[j]).cost_log(ln, Seq::empty(), None, pi, prefill)) by {
        lemma_plain_is_finite(pool[j], ln, pi, prefill);
        assert(costs[i].rank() <= costs[j].rank());
        if costs[j].below(costs[i]) {
            rank_extends_order(costs[j], costs[i]);
        }
    }
}

proof fn lemma_least_prefill<F: Fn(Real) -> Real>(
    pool: Seq<BackendState>,
    w: Option<&WarmthView>,
    ln: F,
    pi: Real,
)
    requires
        is_logarithm(ln),
        !pi.is_nan(),
        pool.len() > 0,
        w matches Some(v) ==> v.prefill@.len() == pool.len(),
    ensures
        is_least_prefill(
            pool,
            w,
            ln,
            pi,
            lowest(prefill_logs(pool, ln, crate::router::prefill_strengths(w), pi)),
        ),
{
    let costs = prefill_logs(pool, ln, crate::router::prefill_strengths(w), pi);
    if w is None {
        lemma_least(pool, ln, pi, true);
    } else {
        lowest_is_minimal(costs);
        let i = lowest(costs);
        assert forall|j: int| 0 <= j < pool.len() implies costs[i].at_most(
            (#[trigger] pool[j]).cost_log(
                ln,
                Seq::empty(),
                warmth_reward(prefill_warmth(w, j)),
                pi,
                true,
            ),
        ) by {
            let (a, b) = (warmth_reward(prefill_warmth(w, i)), warmth_reward(prefill_warmth(w, j)));
            lemma_cost_is_a_number(pool[i], ln, Seq::empty(), a, pi, true);
            lemma_cost_is_a_number(pool[j], ln, Seq::empty(), b, pi, true);
            assert(costs[j] == pool[j].cost_log(ln, Seq::empty(), b, pi, true));
            assert(costs[i].rank() <= costs[j].rank());
            if costs[j].below(costs[i]) {
                rank_extends_order(costs[j], costs[i]);
            }
        }
        assert(costs[i] == pool[i].cost_log(
            ln,
            Seq::empty(),
            warmth_reward(prefill_warmth(w, i)),
            pi,
            true,
        ));
    }
}

/// Every path goes to a backend that costs no more than any other of the pool that serves the
/// request: decode alone to the decode pool, a short prompt to the pool for colocated work unless a
/// warm prefill backend takes it, a long one to the prefill pool with warmth counted. A path
/// through prefill carries the request's id and its estimated length. A request stays unserved only
/// if its pool is empty.
pub proof fn routes_go_to_the_cheapest<F: Fn(Real) -> Real>(
    s: RouterState,
    head: Seq<u8>,
    w: Option<&WarmthView>,
    ln: F,
    id: u64,
)
    requires
        is_logarithm(ln),
        !s.current.pi.is_nan(),
        fits(w, s.prefill.len(), s.decode.len()),
        s.prefill.len() <= usize::MAX,
        s.decode.len() <= usize::MAX,
        w matches Some(v) ==> forall|j: int|
            0 <= j < v.prefill@.len() ==> !(#[trigger] v.prefill@[j]).is_nan(),
    ensures
        ({
            let short = estimated_tokens(head) <= 512;
            let colocated = if s.colocated_phase == Phase::Prefill {
                s.prefill
            } else {
                s.decode
            };
            match s.routed(head, w, ln, id) {
                Some(RoutePath::DecodeOnly { backend }) => {
                    &&& decode_only(head)
                    &&& is_least(s.decode, ln, s.current.pi, false, backend as int)
                },
                Some(RoutePath::Colocated { phase, backend }) => {
                    &&& !decode_only(head) && short && override_target(w) is None
                    &&& phase == s.colocated_phase
                    &&& is_least(
                        colocated,
                        ln,
                        s.current.pi,
                        phase == Phase::Prefill,
                        backend as int,
                    )
                },
                Some(RoutePath::Disaggregated { prefill, request_id, prompt_tokens }) => {
                    &&& !decode_only(head)
                    &&& request_id.id == id
                    &&& prompt_tokens == estimated_tokens(head)
                    &&& short ==> override_target(w) == Some(prefill as int)
                    &&& !short ==> is_least_prefill(s.prefill, w, ln, s.current.pi, prefill as int)
                },
                None => if decode_only(head) {
                    s.decode.len() == 0
                } else if short {
                    override_target(w) is None && colocated.len() == 0
                } else {
                    s.prefill.len() == 0
                },
            }
        }),
{
    if s.decode.len() > 0 {
        lemma_least(s.decode, ln, s.current.pi, false);
    }
    if s.prefill.len() > 0 {
        lemma_least(s.prefill, ln, s.current.pi, true);
        lemma_least_prefill(s.prefill, w, ln, s.current.pi);
    }
    if let Some(v) = w {
        override_takes_the_warmest(v);
    }
}

/// What a decode placement costs on a backend: its transfer from the prefill backend, the memory
/// pressure, its queue, its share and its warmth.
pub open spec fn placement_cost<F: Fn(Real) -> Real, G: Fn(Real) -> Real>(
    s: RouterState,
    label: Seq<char>,
    kv_bytes: u64,
    w: Option<&WarmthView>,
    ln: F,
    exp: G,
    i: int,
) -> Real {
    let ctx = PlacementView {
        prefill_label: label,
        place: s.place_for(label),
        kv_bytes,
        use_rdma_routing: s.rdma_routing,
    };
    s.decode[i].cost_log(
        ln,
        decode_penalties(ctx, s.decode[i], s.phi_penalties(), ln, exp),
        warmth_reward(
            match w {
                Some(v) => Some(v.decode@[i]),
                None => None,
            },
        ),
        s.current.pi,
        false,
    )
}

/// Decode goes to a backend of the decode pool that costs no more than any other there; without a
/// decode pool to the cheapest for colocated work, and nowhere only if there is none.
pub proof fn placements_go_to_the_cheapest<F: Fn(Real) -> Real, G: Fn(Real) -> Real>(
    s: RouterState,
    label: Seq<char>,
    kv_bytes: u64,
    w: Option<&WarmthView>,
    ln: F,
    exp: G,
)
    requires
        is_logarithm(ln),
        !s.current.pi.is_nan(),
        fits(w, s.prefill.len(), s.decode.len()),
    ensures
        match s.decode_choice(label, kv_bytes, w, ln, exp) {
            Some((Phase::Decode, i)) => {
                &&& 0 <= i < s.decode.len()
                &&& forall|j: int|
                    0 <= j < s.decode.len() ==> placement_cost(
                        s,
                        label,
                        kv_bytes,
                        w,
                        ln,
                        exp,
                        i,
                    ).at_most(#[trigger] placement_cost(s, label, kv_bytes, w, ln, exp, j))
            },
            Some((Phase::Prefill, i)) => {
                &&& s.decode.len() == 0 && s.colocated_phase == Phase::Prefill
                &&& is_least(s.prefill, ln, s.current.pi, true, i)
            },
            None => s.decode.len() == 0 && (s.prefill.len() == 0 || s.colocated_phase
                == Phase::Decode),
        },
{
    if s.decode.len() > 0 {
        let ctx = PlacementView {
            prefill_label: label,
            place: s.place_for(label),
            kv_bytes,
            use_rdma_routing: s.rdma_routing,
        };
        let costs = decode_logs(
            ctx,
            s.decode,
            crate::router::decode_strengths(w),
            s.phi_penalties(),
            s.current.pi,
            ln,
            exp,
        );
        assert forall|j: int| 0 <= j < costs.len() implies !(#[trigger] costs[j]).is_nan()
            && costs[j] == placement_cost(s, label, kv_bytes, w, ln, exp, j) by {
            lemma_cost_is_a_number(
                s.decode[j],
                ln,
                decode_penalties(ctx, s.decode[j], s.phi_penalties(), ln, exp),
                warmth_reward(
                    match w {
                        Some(v) => Some(v.decode@[j]),
                        None => None,
                    },
                ),
                s.current.pi,
                false,
            );
        }
        lowest_number_is_minimal(costs);
        assert forall|j: int| 0 <= j < s.decode.len() implies costs[lowest_number(costs)].at_most(
            #[trigger] placement_cost(s, label, kv_bytes, w, ln, exp, j),
        ) by {
            assert(costs[lowest_number(costs)].at_most(costs[j]));
        }
    } else if s.prefill.len() > 0 {
        lemma_least(s.prefill, ln, s.current.pi, true);
    }
}

/// The penalty for memory pressure is a penalty.
pub proof fn memory_pressure_is_a_penalty(s: RouterState)
    requires
        s.valid(),
    ensures
        forall|i: int|
            0 <= i < s.phi_penalties().len() ==> is_penalty(#[trigger] s.phi_penalties()[i]),
        s.phi_penalties().len() <= 1,
{
    lemma_extremes();
    if let Some(l) = s.ledger {
        let reserved = if l.reserved() + crate::kv::p90_of(l.recent) > u64::MAX {
            u64::MAX as nat
        } else {
            l.reserved() + crate::kv::p90_of(l.recent) as nat
        };
        if l.capacity > 0 {
            phi_penalty_is_bounded(reserved, l.capacity as nat);
        }
    }
}

/// Of two decode backends that differ only in warmth, the one whose cache is warmer by `2^-18` or
/// more takes the decode before the colder one, if KV has to be moved to both.
pub proof fn warmer_backend_decodes_first<F: Fn(Real) -> Real, G: Fn(Real) -> Real>(
    s: RouterState,
    label: Seq<char>,
    kv_bytes: u64,
    v: &WarmthView,
    ln: F,
    exp: G,
    colder: int,
    warmer: int,
)
    requires
        separates(ln),
        s.valid(),
        !s.current.pi.is_nan(),
        fits(Some(v), s.prefill.len(), s.decode.len()),
        0 <= colder < s.decode.len(),
        0 <= warmer < s.decode.len(),
        s.decode[colder].base == s.decode[warmer].base,
        s.decode[colder].observed == s.decode[warmer].observed,
        s.decode[colder].inflight == s.decode[warmer].inflight,
        s.decode[colder].inflight < HIDDEN_BIT,
        s.decode[colder].place == s.decode[warmer].place,
        s.decode[colder].label != label,
        s.decode[warmer].label != label,
        warmth_of(Some(v.decode@[colder])) + pow2(1056) <= warmth_of(Some(v.decode@[warmer])),
    ensures
        s.decode_choice(label, kv_bytes, Some(v), ln, exp) != Some((Phase::Decode, colder)),
{
    let ctx = PlacementView {
        prefill_label: label,
        place: s.place_for(label),
        kv_bytes,
        use_rdma_routing: s.rdma_routing,
    };
    memory_pressure_is_a_penalty(s);
    warmer_decode_is_chosen_first(
        ctx,
        s.decode,
        crate::router::measured(v.decode@),
        s.phi_penalties(),
        s.current.pi,
        ln,
        exp,
        colder,
        warmer,
    );
}

/// A measurement changes exactly the first backend with its label, and of that only what was
/// measured.
pub proof fn measurement_goes_to_one_backend(
    pool: Seq<BackendState>,
    label: Seq<char>,
    secs: Real,
    i: int,
)
    requires
        0 <= i < pool.len(),
    ensures
        noted(pool, label, secs).len() == pool.len(),
        pool[i].label == label && (forall|j: int| 0 <= j < i ==> (#[trigger] pool[j]).label != label)
            ==> noted(pool, label, secs)[i] == pool[i].after_measurement(secs),
        pool[i].label != label || (exists|j: int| 0 <= j < i && (#[trigger] pool[j]).label == label)
            ==> noted(pool, label, secs)[i] == pool[i],
{
    if forall|j: int| 0 <= j < pool.len() ==> (#[trigger] pool[j]).label != label {
        lemma_not_noted(pool, label, secs);
    } else {
        let f = first_with(pool, label);
        lemma_first_with(pool, label);
        lemma_noted(pool, label, secs, f);
    }
}

spec fn first_with(pool: Seq<BackendState>, label: Seq<char>) -> int
    decreases pool.len(),
{
    if pool.len() == 0 || pool[0].label == label {
        0
    } else {
        1 + first_with(pool.drop_first(), label)
    }
}

proof fn lemma_first_with(pool: Seq<BackendState>, label: Seq<char>)
    requires
        exists|j: int| 0 <= j < pool.len() && (#[trigger] pool[j]).label == label,
    ensures
        ({
            let f = first_with(pool, label);
            &&& 0 <= f < pool.len()
            &&& pool[f].label == label
            &&& forall|j: int| 0 <= j < f ==> (#[trigger] pool[j]).label != label
        }),
    decreases pool.len(),
{
    if pool[0].label != label {
        let rest = pool.drop_first();
        let j = choose|j: int| 0 <= j < pool.len() && (#[trigger] pool[j]).label == label;
        assert(rest[j - 1] == pool[j]);
        lemma_first_with(rest, label);
        assert forall|j: int| 0 <= j < first_with(pool, label) implies (#[trigger] pool[j]).label
            != label by {
            if j > 0 {
                assert(rest[j - 1] == pool[j]);
            }
        }
    }
}

/// The longest queue of a pool is that of one of its backends, and no backend has a longer one.
pub proof fn longest_queue_is_the_longest(pool: Seq<BackendState>)
    ensures
        forall|i: int| 0 <= i < pool.len() ==> (#[trigger] pool[i]).inflight <= longest_queue(pool),
        if pool.len() == 0 {
            longest_queue(pool) == 0
        } else {
            exists|i: int|
                0 <= i < pool.len() && (#[trigger] pool[i]).inflight == longest_queue(pool)
        },
    decreases pool.len(),
{
    if pool.len() > 0 {
        let rest = pool.drop_last();
        longest_queue_is_the_longest(rest);
        assert forall|i: int| 0 <= i < pool.len() implies (#[trigger] pool[i]).inflight
            <= longest_queue(pool) by {
            if i < rest.len() {
                assert(rest[i] == pool[i]);
            }
        }
        if longest_queue(rest) < pool.last().inflight || rest.len() == 0 {
            assert(pool[pool.len() - 1].inflight == longest_queue(pool));
        } else {
            let i = choose|i: int|
                0 <= i < rest.len() && (#[trigger] rest[i]).inflight == longest_queue(rest);
            assert(pool[i] == rest[i]);
        }
    }
}

/// The pressure of a pool with `n` in its longest queue is `n / (n + 16)`, up to `2^-53`.
pub proof fn queue_pressure_in_numbers(pool: Seq<BackendState>)
    requires
        longest_queue(pool) < HIDDEN_BIT,
    ensures
        is_signal(queue_pressure(pool)),
        apart(
            queue_pressure(pool).value() * (longest_queue(pool) + 16),
            longest_queue(pool) * pow2(1074),
        ) <= (longest_queue(pool) + 16) * pow2(1021),
{
    let n = longest_queue(pool) as nat;
    let k = pow2(1074);
    lemma_pow2_pos(1074);
    lemma_count_is_exact(n);
    lemma_count_is_exact(n + 16);
    lemma2_to64();
    lemma_units_of_power(1078);
    lemma_pow2_adds(4, 1074);
    let mid = Real { bits: QUEUE_MIDPOINT_BITS };
    assert(mid.value() == 16 * k);
    let p = of_nat(n);
    assert((n + 16) * k == n * k + 16 * k && n * k >= 0) by (nonlinear_arith);
    lemma_sum_value(p, mid);
    let t = sum(p, mid);
    assert(t.value() == (n + 16) * k);
    assert(t == of_nat(n + 16));
    lemma_part(p, t);
    let (r, x, y, h) = (queue_pressure(pool).value(), n as int, n as int + 16, pow2(1021) as int);
    let z = k as int;
    assert(r * y - x * z <= y * h && x * z - r * y <= y * h) by (nonlinear_arith)
        requires
            r * (y * z) - (x * z) * z <= (y * z) * h,
            (x * z) * z - r * (y * z) <= (y * z) * h,
            z > 0,
    ;
}

/// Each signal of the pressure is the larger of what gossip says and what the router sees itself:
/// its own queues and the reserved part of its KV memory. Without gossip only the latter count.
pub proof fn pressure_is_the_larger_view(s: RouterState, w: Option<&WarmthView>, fp: Real)
    requires
        longest_queue(s.prefill) < HIDDEN_BIT,
        longest_queue(s.decode) < HIDDEN_BIT,
        w matches Some(v) ==> !mean(shares(v.gossip.prefill_occupancy@)).is_nan() && !mean(
            shares(v.gossip.decode_occupancy@),
        ).is_nan() && !mean(v.gossip.decode_kv_pressure@).is_nan(),
    ensures
        ({
            let p = s.pressure(w, fp);
            &&& queue_pressure(s.prefill).at_most(p.q_prefill)
            &&& queue_pressure(s.decode).at_most(p.q_decode)
            &&& p.fp_share == share(fp)
            &&& p.slo_prefill == zero() && p.slo_decode == zero()
            &&& match w {
                None => p.q_prefill.value() == queue_pressure(s.prefill).value()
                    && p.q_decode.value() == queue_pressure(s.decode).value(),
                Some(v) => {
                    let q = mean(shares(v.gossip.prefill_occupancy@));
                    let d = mean(shares(v.gossip.decode_occupancy@));
                    let kv = mean(v.gossip.decode_kv_pressure@);
                    &&& q.at_most(p.q_prefill) && d.at_most(p.q_decode)
                    &&& p.q_prefill == q || p.q_prefill == queue_pressure(s.prefill)
                    &&& p.q_decode == d || p.q_decode == queue_pressure(s.decode)
                    &&& !kv.is_nan() && s.ledger is None ==> p.kv_decode == kv
                },
            }
        }),
{
    reveal(RouterState::pressure);
    queue_pressure_in_numbers(s.prefill);
    queue_pressure_in_numbers(s.decode);
    assert(units(0) == 0) by (nonlinear_arith);
}

/// The pressure on KV memory is at least the reserved part of it, up to `2^-52`, and no less than
/// what gossip says.
pub proof fn kv_pressure_in_numbers(s: RouterState, w: Option<&WarmthView>, fp: Real)
    requires
        s.valid(),
        s.ledger is Some,
        0 < s.ledger->0.capacity < HIDDEN_BIT,
        w matches Some(v) ==> !mean(v.gossip.decode_kv_pressure@).is_nan(),
    ensures
        ({
            let l = s.ledger->0;
            let kv = s.pressure(w, fp).kv_decode;
            let held = l.reserved() * pow2(1074);
            let said = match w {
                Some(v) => mean(v.gossip.decode_kv_pressure@),
                None => zero(),
            };
            &&& !kv.is_nan()
            &&& held - kv.value() * l.capacity <= l.capacity * pow2(1021)
            &&& said.at_most(kv)
            &&& kv == said || apart(kv.value() * l.capacity, held as int) <= l.capacity * pow2(1021)
        }),
{
    reveal(RouterState::pressure);
    let l = s.ledger->0;
    let (c, r) = (l.capacity as nat, l.reserved());
    lemma_count_is_exact(c);
    lemma_count_is_exact(r);
    lemma_pow2_pos(1074);
    let z = pow2(1074) as int;
    let (x, y) = (r as int, c as int);
    assert(0 <= x * z <= y * z && y * z > 0) by (nonlinear_arith)
        requires
            0 <= x <= y,
            y > 0,
            z > 0,
    ;
    lemma_part(of_nat(r), of_nat(c));
    let own = share(quotient(of_nat(r), of_nat(c)));
    let (v, h) = (own.value(), pow2(1021) as int);
    assert(v * y - x * z <= y * h && x * z - v * y <= y * h) by (nonlinear_arith)
        requires
            v * (y * z) - (x * z) * z <= (y * z) * h,
            (x * z) * z - v * (y * z) <= (y * z) * h,
            z > 0,
    ;
    let kv = s.pressure(w, fp).kv_decode;
    assert(kv.value() >= v);
    assert(kv.value() * y >= v * y) by (nonlinear_arith)
        requires
            kv.value() >= v,
            y > 0,
    ;
}

/// A control tick leaves backends, reservations and hand-offs alone and records the length of the
/// prompt. If it looks at shares, it records the share that the pressure asks for; where shares are
/// applied and that share is taken, requests are priced by it from then on and the bucket is filled
/// to what it allows. Otherwise what requests are priced by is published again once it is a tenth
/// of a second old, and only then. A sample of regret is added and counted.
pub proof fn tick_applies_the_wanted_share<F: Fn(Real) -> Real, G: Fn(Real) -> Real>(
    s: RouterState,
    tokens: Option<u64>,
    sample: bool,
    m: Moment,
    w: Option<&WarmthView>,
    ln: F,
    exp: G,
)
    ensures
        ({
            let (t, out) = s.ticked(tokens, sample, m, w, ln, exp);
            let looks = sample || s.actuation || m.now_ms >= s.current.published_at_ms + 100;
            let p = s.pressure(w, s.colocated_share(Real { bits: HALF_BITS }));
            let wanted = wanted_share(s.control.rebalancer.pi, p);
            let takes = s.control.rebalancer.applies(p, m.now_ns);
            let sampled = sample && tokens is Some && s.prefill.len() > 0 && s.decode.len() > 0;
            &&& t.prefill == s.prefill && t.decode == s.decode
            &&& t.ledger == s.ledger && t.handoffs == s.handoffs
            &&& t.colocated_routes == s.colocated_routes && t.disagg_routes == s.disagg_routes
            &&& tokens is None ==> t.control.predictor == s.control.predictor
            &&& tokens is Some ==> t.control.predictor.len() > 0 && t.control.predictor.last()
                == tokens->0
            &&& looks ==> t.control.last_pi_star == wanted
            &&& looks && takes ==> t.control.rebalancer.pi == wanted
            &&& !looks || !takes ==> t.control.rebalancer == s.control.rebalancer
            &&& looks && takes && s.actuation ==> {
                &&& t.current.pi == share(wanted)
                &&& t.current.published_at_ms == m.now_ms
                &&& s.current.generation < u64::MAX ==> t.current.generation
                    == s.current.generation + 1
                &&& t.last_admit_capacity == scaled_capacity(4096, wanted)
                &&& t.last_admit_capacity != s.last_admit_capacity ==> t.bucket.tokens
                    == t.bucket.capacity && t.bucket.capacity == scaled_capacity(4096, wanted)
                    && out.kernel_capacity == Some(scaled_capacity(4096, wanted))
            }
            &&& m.now_ms >= s.current.published_at_ms + 100 && !(takes && s.actuation) ==> {
                &&& t.current.pi == share(t.control.rebalancer.pi)
                &&& t.current.published_at_ms == m.now_ms
                &&& s.current.generation < u64::MAX ==> t.current.generation
                    == s.current.generation + 1
            }
            &&& m.now_ms < s.current.published_at_ms + 100 && !(takes && s.actuation) ==> t.current
                == s.current && !out.kernel_lost
            &&& looks && sampled ==> {
                &&& t.control.regret_sum == sum(
                    s.control.regret_sum,
                    regret(s.prefill_targets(w, ln), s.decode_targets(w, ln), exp),
                )
                &&& s.control.regret_samples < u64::MAX ==> t.control.regret_samples
                    == s.control.regret_samples + 1
            }
            &&& !looks || !sampled ==> t.control.regret_sum == s.control.regret_sum
                && t.control.regret_samples == s.control.regret_samples
        }),
{
    reveal(RouterState::after_rebalance);
    reveal(RouterState::after_heartbeat);
    reveal(RouterState::after_regret);
    let recorded = s.after_prompt(tokens);
    assert(recorded.pressure(w, recorded.colocated_share(Real { bits: HALF_BITS })) == s.pressure(
        w,
        s.colocated_share(Real { bits: HALF_BITS }),
    )) by {
        reveal(RouterState::pressure);
    }
    let (balanced, first) = recorded.after_rebalance(
        recorded.pressure(w, recorded.colocated_share(Real { bits: HALF_BITS })),
        m,
    );
    let (beaten, beat) = balanced.after_heartbeat(m);
    assert(beaten.prefill_targets(w, ln) =~= s.prefill_targets(w, ln));
    assert(beaten.decode_targets(w, ln) =~= s.decode_targets(w, ln));
}

/// A request is counted once, by the path it took, and by nothing else; a prompt that goes through
/// prefill although it is close below the threshold is counted as such.
pub proof fn each_request_is_counted_once(s: RouterState, path: RoutePath)
    requires
        s.colocated_routes < u64::MAX,
        s.disagg_routes < u64::MAX,
        s.control.misroute_samples < u64::MAX,
    ensures
        ({
            let t = s.after_path(path);
            let near = path is Disaggregated && 410 <= path->prompt_tokens <= 512;
            &&& t.colocated_routes == s.colocated_routes + if path is Colocated {
                1int
            } else {
                0
            }
            &&& t.disagg_routes == s.disagg_routes + if path is Colocated {
                0int
            } else {
                1
            }
            &&& t.control.misroute_samples == s.control.misroute_samples + if near {
                1int
            } else {
                0
            }
            &&& !near ==> t.control == s.control
            &&& t.prefill == s.prefill && t.decode == s.decode && t.ledger == s.ledger
                && t.handoffs == s.handoffs && t.current == s.current && t.bucket == s.bucket
        }),
{
}

/// A finished prefill decodes on a backend that costs no more than any other of the decode pool
/// once its time was measured, and is logged with its length, its time in microseconds, the share
/// in force and the backend that decodes it.
pub proof fn finished_prefill_is_placed_and_logged<F: Fn(Real) -> Real, G: Fn(Real) -> Real>(
    s: RouterState,
    signals: PrefillSignals,
    response: Seq<u8>,
    label: Seq<char>,
    o: TransferOutcome,
    m: Moment,
    w: Option<&WarmthView>,
    ln: F,
    exp: G,
)
    requires
        is_logarithm(ln),
        !s.current.pi.is_nan(),
        s.decode.len() > 0,
        fits(w, s.prefill.len(), s.decode.len()),
        s.completed(signals, response, label, o, m, w, ln, exp).1 is Ok,
    ensures
        ({
            let (t, placed) = s.completed(signals, response, label, o, m, w, ln, exp);
            let p = placed->Ok_0;
            let at = s.placing(signals, response, label, m.now_ns);
            let id = signals.request_id.spec_raw();
            let bytes = match s.admission(response, id, signals.prompt_tokens, label) {
                Ok(Some(h)) => h.byte_len,
                _ => s.expected_bytes(signals.prompt_tokens),
            };
            let row = t.control.corrector_shadow.last();
            &&& p.phase == Phase::Decode
            &&& 0 <= p.backend < s.decode.len()
            &&& forall|j: int|
                0 <= j < s.decode.len() ==> placement_cost(
                    at,
                    label,
                    bytes,
                    w,
                    ln,
                    exp,
                    p.backend,
                ).at_most(#[trigger] placement_cost(at, label, bytes, w, ln, exp, j))
            &&& at.decode == s.decode && t.decode == s.decode
            &&& t.prefill == noted(
                s.prefill,
                label,
                seconds_of_nanos(signals.prefill_wall_ns as nat),
            )
            &&& row.prompt_tokens == signals.prompt_tokens
            &&& row.label == s.decode[p.backend].label
            &&& row.pool_pi == s.current.pi
            &&& row.analytic_ln == s.decode[p.backend].cost_log(
                ln,
                at.phi_penalties(),
                warmth_reward(
                    match w {
                        Some(v) => Some(v.decode@[p.backend]),
                        None => None,
                    },
                ),
                s.current.pi,
                false,
            )
            &&& signals.prefill_wall_ns / 1000 <= u64::MAX ==> row.observed_us
                == signals.prefill_wall_ns / 1000
        }),
{
    reveal(RouterState::after_rebalance);
    reveal(RouterState::after_heartbeat);
    reveal(RouterState::after_regret);
    let at = s.placing(signals, response, label, m.now_ns);
    let id = signals.request_id.spec_raw();
    let h = s.admission(response, id, signals.prompt_tokens, label)->Ok_0;
    lemma_noted_len(
        s.prefill,
        label,
        seconds_of_nanos(signals.prefill_wall_ns as nat),
    );
    placements_go_to_the_cheapest(
        at,
        label,
        s.bytes_to_move(h, signals.prompt_tokens),
        w,
        ln,
        exp,
    );
}

/// The place of a label is that of the first backend with it, in the prefill pool if it has one and
/// else in the decode pool; a label that neither has is nowhere.
pub proof fn place_of_a_label(s: RouterState, label: Seq<char>, i: int)
    ensures
        0 <= i < s.prefill.len() && s.prefill[i].label == label && (forall|j: int|
            0 <= j < i ==> (#[trigger] s.prefill[j]).label != label) ==> s.place_for(label)
            == s.prefill[i].place,
        (forall|j: int| 0 <= j < s.prefill.len() ==> (#[trigger] s.prefill[j]).label != label) && 0
            <= i < s.decode.len() && s.decode[i].label == label && (forall|j: int|
            0 <= j < i ==> (#[trigger] s.decode[j]).label != label) ==> s.place_for(label)
            == s.decode[i].place,
        (forall|j: int| 0 <= j < s.prefill.len() ==> (#[trigger] s.prefill[j]).label != label) && (
        forall|j: int| 0 <= j < s.decode.len() ==> (#[trigger] s.decode[j]).label != label)
            ==> s.place_for(label) == nowhere(),
{
    let none = forall|j: int| 0 <= j < s.prefill.len() ==> (#[trigger] s.prefill[j]).label != label;
    if none {
        lemma_not_noted(s.prefill, label, zero());
        if 0 <= i < s.decode.len() && s.decode[i].label == label && (forall|j: int|
            0 <= j < i ==> (#[trigger] s.decode[j]).label != label) {
            lemma_noted(s.decode, label, zero(), i);
        }
        if forall|j: int| 0 <= j < s.decode.len() ==> (#[trigger] s.decode[j]).label != label {
            lemma_not_noted(s.decode, label, zero());
        }
    }
    if 0 <= i < s.prefill.len() && s.prefill[i].label == label && (forall|j: int|
        0 <= j < i ==> (#[trigger] s.prefill[j]).label != label) {
        lemma_noted(s.prefill, label, zero(), i);
    }
}

/// The share of colocated requests in numbers: those over all, up to `2^-53`.
pub proof fn colocated_share_in_numbers(s: RouterState, otherwise: Real)
    requires
        s.colocated_routes + s.disagg_routes < HIDDEN_BIT,
    ensures
        ({
            let all = s.colocated_routes + s.disagg_routes;
            let part = s.colocated_share(otherwise);
            &&& all == 0 ==> part == otherwise
            &&& all > 0 ==> is_signal(part) && apart(
                part.value() * all,
                s.colocated_routes * pow2(1074) as int,
            ) <= all * pow2(1021)
        }),
{
    let (c, n) = (s.colocated_routes as nat, (s.colocated_routes + s.disagg_routes) as nat);
    if n > 0 {
        lemma_count_is_exact(c);
        lemma_count_is_exact(n);
        let z = pow2(1074) as int;
        lemma_pow2_pos(1074);
        let (x, y) = (c as int, n as int);
        assert(0 <= x * z <= y * z && y * z > 0) by (nonlinear_arith)
            requires
                0 <= x <= y,
                y > 0,
                z > 0,
        ;
        lemma_part(of_nat(c), of_nat(n));
        let (v, h) = (s.colocated_share(otherwise).value(), pow2(1021) as int);
        assert(v * y - x * z <= y * h && x * z - v * y <= y * h) by (nonlinear_arith)
            requires
                v * (y * z) - (x * z) * z <= (y * z) * h,
                (x * z) * z - v * (y * z) <= (y * z) * h,
                z > 0,
        ;
    }
}

/// A hand-off is taken exactly if it was announced with a handle and a size between the footprint
/// of the prompt and four times that, and its source has room for it; the footprint is at least the
/// prompt's own bytes and fifteen percent more.
pub proof fn accepted_handoff_is_credible(
    s: RouterState,
    response: Seq<u8>,
    id: u64,
    tokens: u64,
    label: Seq<char>,
)
    requires
        s.accounts_kv(),
        4 * reserved_bytes(tokens as nat, s.bytes_per_token as nat) <= u64::MAX,
        block_tokens(tokens as nat) * s.bytes_per_token <= u64::MAX,
    ensures
        ({
            let a = announced(response, id, label);
            let need = reserved_bytes(tokens as nat, s.bytes_per_token as nat);
            let credible = a is Some && a->0.handle != 0 && a->0.byte_len > 0 && need
                <= a->0.byte_len <= 4 * need;
            let room = s.ledger->0.admits(Some(label), id, a->0.byte_len) is Ok;
            &&& 23 * (tokens * s.bytes_per_token) <= 20 * need
            &&& match s.admission(response, id, tokens, label) {
                Ok(h) => h == a && credible && room,
                Err(Refusal::HandoffMissing) => !credible,
                Err(Refusal::KvAdmitRejected) => credible && !room,
                Err(Refusal::NoBackend) => false,
            }
        }),
{
    footprint_in_numbers(tokens as nat, s.bytes_per_token as nat);
    let (t, b, n) = (tokens as int, s.bytes_per_token as int, block_tokens(tokens as nat) as int);
    assert(t * b <= n * b) by (nonlinear_arith)
        requires
            t <= n,
            0 <= b,
    ;
}

/// What a prompt close below the threshold adds when it goes through prefill: its length as a part
/// of the threshold, up to `2^-53`.
pub proof fn near_misses_add_their_share(s: RouterState, path: RoutePath)
    requires
        path is Disaggregated,
    ensures
        410 <= path->prompt_tokens <= 512 ==> exists|x: Real|
            is_signal(x) && apart(x.value() * 512, path->prompt_tokens * pow2(1074) as int) <= 512
                * pow2(1021) && s.after_path(path).control.misroute_sum == #[trigger] sum(
                s.control.misroute_sum,
                x,
            ),
        path->prompt_tokens < 410 || path->prompt_tokens > 512 ==> s.after_path(
            path,
        ).control.misroute_sum == s.control.misroute_sum,
{
    let t = path->prompt_tokens;
    if 410 <= t <= 512 {
        let (c, n) = (t as nat, 512nat);
        lemma2_to64();
        lemma_count_is_exact(c);
        lemma_count_is_exact(n);
        let z = pow2(1074) as int;
        lemma_pow2_pos(1074);
        let (x, y) = (c as int, n as int);
        assert(0 <= x * z <= y * z && y * z > 0) by (nonlinear_arith)
            requires
                0 <= x <= y,
                y > 0,
                z > 0,
        ;
        lemma_part(of_nat(c), of_nat(n));
        let p = share(quotient(of_nat(c), of_nat(n)));
        let (v, h) = (p.value(), pow2(1021) as int);
        assert(v * y - x * z <= y * h && x * z - v * y <= y * h) by (nonlinear_arith)
            requires
                v * (y * z) - (x * z) * z <= (y * z) * h,
                (x * z) * z - v * (y * z) <= (y * z) * h,
                z > 0,
        ;
        assert(s.after_path(path).control.misroute_sum == sum(s.control.misroute_sum, p));
    }
}

/// A backend that decodes counts by its decode warmth: one of the decode pool by that of the pool,
/// one of the prefill pool by what its cache is worth for decoding; without a snapshot by none.
pub proof fn warmth_goes_by_the_pool(s: RouterState, v: &WarmthView, i: int)
    ensures
        s.decode_warmth(Phase::Decode, i, Some(v)) == Some(v.decode@[i]),
        s.decode_warmth(Phase::Prefill, i, Some(v)) == Some(v.prefill_as_decode@[i]),
        s.decode_warmth(Phase::Decode, i, None) is None,
        s.decode_warmth(Phase::Prefill, i, None) is None,
{
}

/// The threshold of the override is six tenths: a short prompt leaves the fast path only for a
/// backend that is that warm, and does so whenever the snapshot knows all backends and one of them
/// is, up to `2^-49`.
pub proof fn override_needs_six_tenths(v: &WarmthView, i: int)
    requires
        v.prefill_known@.len() == v.prefill@.len(),
        forall|j: int| 0 <= j < v.prefill@.len() ==> (#[trigger] v.prefill@[j]).finite(),
        forall|j: int| 0 <= j < v.prefill@.len() ==> #[trigger] v.prefill_known@[j],
        0 <= i < v.prefill@.len(),
    ensures
        override_target(Some(v)) == Some(i) ==> 10 * v.prefill@[i].value() + pow2(1025) >= 6
            * pow2(1074),
        10 * v.prefill@[i].value() >= 6 * pow2(1074) + pow2(1025) ==> override_target(
            Some(v),
        ) is Some,
{
    let limit = Real { bits: ROUTING_SHORT_CONTEXT_WARMTH_OVERRIDE_BITS };
    assert forall|j: int| 0 <= j < v.prefill@.len() implies !(#[trigger] v.prefill@[j]).is_nan() by {
        assert(v.prefill@[j].finite());
    }
    override_takes_the_warmest(v);
    lemma2_to64();
    lemma2_to64_rest();
    let z = pow2(1021);
    lemma_pow2_pos(1021);
    lemma_pow2_adds(53, 1021);
    lemma_pow2_adds(4, 1021);
    assert(crate::binary64::significand(ROUTING_SHORT_CONTEXT_WARMTH_OVERRIDE_BITS)
        == 0x13_3333_3333_3333);
    assert(crate::binary64::shift(ROUTING_SHORT_CONTEXT_WARMTH_OVERRIDE_BITS) == 1021);
    assert(limit.value() == 0x13_3333_3333_3333 * z);
    assert(!v.prefill@[i].is_nan());
}

} // verus!
