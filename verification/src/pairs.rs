//! What pairing prefill with decode backends promises: the best pair, the greedy pair and the
//! regret between them.

use vstd::prelude::*;
use vstd::arithmetic::power2::{lemma_pow2_unfold, pow2};
use crate::backend::{warmth_reward, BackendState};
use crate::binary64::{
    larger, lemma_one_value, lemma_sum_value, lemma_value_order, of_nat, one, rank_extends_order,
    units, zero, Real,
};
use crate::elementary::value_at;
use crate::factors::{apart, is_core, is_logarithm, is_penalty, lemma_extremes};
use crate::pairing::{
    counted_penalties, decode_costs, greedy_cost, greedy_decode, greedy_never_beats_oracle,
    greedy_prefill, joint, joint_costs, lemma_smallest, live_target, prefill_costs, regret,
    reward_list, scored_decode, scored_prefill, smallest, ScoredBackend, TargetView,
};
use crate::pricing::{
    cost_in_numbers, lemma_warmer_cost, logs_add_up, logs_of, separates, service_log_in_numbers,
    warmth_in_numbers, warmth_of, warmth_share,
};
use crate::rebalancer::HALF_BITS;
use crate::rounding::HIDDEN_BIT;
use crate::selection::lowest_is_minimal;

verus! {

/// The smallest of some finite costs is one of them and is no more than any.
pub proof fn smallest_is_the_least(costs: Seq<Real>)
    requires
        costs.len() > 0,
        forall|i: int| 0 <= i < costs.len() ==> (#[trigger] costs[i]).finite(),
    ensures
        exists|i: int| 0 <= i < costs.len() && #[trigger] costs[i] == smallest(costs),
        forall|i: int| 0 <= i < costs.len() ==> smallest(costs).at_most(#[trigger] costs[i]),
    decreases costs.len(),
{
    let rest = costs.drop_last();
    let n = costs.len();
    assert forall|i: int| 0 <= i < n implies !(#[trigger] costs[i]).is_nan() by {}
    assert forall|i: int| 0 <= i < n implies smallest(costs).at_most(#[trigger] costs[i]) by {
        lemma_smallest(costs, i);
    }
    assert(costs[n - 1].finite());
    if rest.len() > 0 {
        assert forall|i: int| 0 <= i < rest.len() implies (#[trigger] rest[i]).finite() by {
            assert(costs[i].finite());
        }
        smallest_is_the_least(rest);
        let i = choose|i: int| 0 <= i < rest.len() && #[trigger] rest[i] == smallest(rest);
        assert(costs[i] == rest[i]);
    } else {
        assert(smallest(rest).magnitude() == crate::rounding::INFINITY_BITS);
        lemma_value_order(costs[0], smallest(rest));
    }
    assert(smallest(costs) == smallest(rest) || smallest(costs) == costs[n - 1]);
}

/// The pair that is the measure of all others costs no more than prefill on any backend followed by
/// decode on any other.
pub proof fn best_pair_is_the_least(
    pfs: Seq<TargetView>,
    dcs: Seq<TargetView>,
    i: int,
    j: int,
)
    requires
        0 <= i < pfs.len(),
        0 <= j < dcs.len(),
        forall|k: int|
            0 <= k < joint_costs(pfs, dcs).len() ==> !(#[trigger] joint_costs(
                pfs,
                dcs,
            )[k]).is_nan(),
    ensures
        smallest(joint_costs(pfs, dcs)).at_most(joint(pfs[i], dcs[j])),
{
    let m = dcs.len() as int;
    let k = i * m + j;
    assert(0 <= k < pfs.len() * dcs.len()) by (nonlinear_arith)
        requires
            0 <= i < pfs.len(),
            0 <= j < m,
            m == dcs.len(),
            k == i * m + j,
    ;
    vstd::arithmetic::div_mod::lemma_fundamental_div_mod_converse(k, m, i, j);
    lemma_smallest(joint_costs(pfs, dcs), k);
}

/// The greedy pair takes the cheapest prefill backend, whatever follows, and then the decode
/// backend that is cheapest after it.
pub proof fn greedy_takes_the_cheapest_twice(pfs: Seq<TargetView>, dcs: Seq<TargetView>)
    requires
        pfs.len() > 0,
        dcs.len() > 0,
        forall|i: int| 0 <= i < pfs.len() ==> (#[trigger] pfs[i]).prefill.finite(),
        forall|i: int|
            0 <= i < dcs.len() ==> (#[trigger] dcs[i]).near.finite() && dcs[i].far.finite(),
    ensures
        ({
            let p = pfs[greedy_prefill(pfs)];
            let d = dcs[greedy_decode(pfs, dcs)];
            &&& forall|i: int| 0 <= i < pfs.len() ==> p.prefill.at_most((#[trigger] pfs[i]).prefill)
            &&& forall|i: int|
                0 <= i < dcs.len() ==> (if d.label == p.label {
                    d.near
                } else {
                    d.far
                }).at_most(
                    if (#[trigger] dcs[i]).label == p.label {
                        dcs[i].near
                    } else {
                        dcs[i].far
                    },
                )
            &&& greedy_cost(pfs, dcs) == joint(p, d)
        }),
{
    let first = prefill_costs(pfs);
    lowest_is_minimal(first);
    let a = greedy_prefill(pfs);
    let p = pfs[a];
    let second = decode_costs(dcs, p.label);
    lowest_is_minimal(second);
    let b = greedy_decode(pfs, dcs);
    let d = dcs[b];
    assert forall|i: int| 0 <= i < pfs.len() implies p.prefill.at_most(
        (#[trigger] pfs[i]).prefill,
    ) by {
        assert(first[a].rank() <= first[i].rank());
        if first[i].below(first[a]) {
            rank_extends_order(first[i], first[a]);
        }
        assert(pfs[a].prefill.finite());
    }
    assert forall|i: int| 0 <= i < dcs.len() implies second[b].at_most(
        if (#[trigger] dcs[i]).label == p.label {
            dcs[i].near
        } else {
            dcs[i].far
        },
    ) by {
        assert(second[b].rank() <= second[i].rank());
        if second[i].below(second[b]) {
            rank_extends_order(second[i], second[b]);
        }
        assert(dcs[b].near.finite() && dcs[b].far.finite());
    }
}

/// Whether an exponential function grows with its argument and is one at zero.
pub open spec fn is_exponential<G: Fn(Real) -> Real>(exp: G) -> bool {
    &&& forall|x: Real, y: Real|
        x.at_most(y) ==> (#[trigger] value_at(exp, x)).at_most(#[trigger] value_at(exp, y))
    &&& value_at(exp, zero()) == one()
}

/// Regret is never below zero, and zero without any pool.
pub proof fn regret_is_never_negative<G: Fn(Real) -> Real>(
    pfs: Seq<TargetView>,
    dcs: Seq<TargetView>,
    exp: G,
)
    requires
        is_exponential(exp),
        forall|k: int|
            0 <= k < joint_costs(pfs, dcs).len() ==> (#[trigger] joint_costs(
                pfs,
                dcs,
            )[k]).finite(),
    ensures
        zero().at_most(regret(pfs, dcs, exp)),
        pfs.len() == 0 || dcs.len() == 0 ==> regret(pfs, dcs, exp) == zero(),
{
    assert(units(0) == 0) by (nonlinear_arith);
    if pfs.len() > 0 && dcs.len() > 0 {
        let costs = joint_costs(pfs, dcs);
        greedy_never_beats_oracle(pfs, dcs);
        assert(costs.len() > 0) by (nonlinear_arith)
            requires
                costs.len() == pfs.len() * dcs.len(),
                pfs.len() > 0,
                dcs.len() > 0,
        ;
        smallest_is_the_least(costs);
        let g = greedy_cost(pfs, dcs);
        let s = smallest(costs);
        assert(s.finite());
        lemma_greedy_is_a_pair(pfs, dcs);
        assert(g.finite());
        let d = crate::binary64::difference(g, s);
        lemma_difference_sign(g, s);
        assert(zero().at_most(d));
        assert(one().at_most(value_at(exp, d)));
        let e = value_at(exp, d);
        lemma_one_value();
        if e.finite() {
            lemma_difference_sign(e, one());
        } else {
            lemma_value_order(e, one());
        }
    }
}

proof fn lemma_greedy_is_a_pair(pfs: Seq<TargetView>, dcs: Seq<TargetView>)
    requires
        pfs.len() > 0,
        dcs.len() > 0,
    ensures
        exists|k: int|
            0 <= k < joint_costs(pfs, dcs).len() && #[trigger] joint_costs(pfs, dcs)[k]
                == greedy_cost(pfs, dcs),
{
    lowest_is_minimal(prefill_costs(pfs));
    let i = greedy_prefill(pfs);
    lowest_is_minimal(decode_costs(dcs, pfs[i].label));
    let j = greedy_decode(pfs, dcs);
    let m = dcs.len() as int;
    let k = i * m + j;
    assert(0 <= k < pfs.len() * dcs.len()) by (nonlinear_arith)
        requires
            0 <= i < pfs.len(),
            0 <= j < m,
            m == dcs.len(),
            k == i * m + j,
    ;
    vstd::arithmetic::div_mod::lemma_fundamental_div_mod_converse(k, m, i, j);
    assert(joint_costs(pfs, dcs)[k] == greedy_cost(pfs, dcs));
}

/// The difference of a number and one that is no larger is not below zero.
proof fn lemma_difference_sign(a: Real, b: Real)
    requires
        a.finite(),
        b.finite(),
        b.at_most(a),
    ensures
        zero().at_most(crate::binary64::difference(a, b)),
{
    let n = crate::binary64::negation(b);
    assert(units(0) == 0) by (nonlinear_arith);
    assert(n.finite() && n.value() == -b.value());
    lemma_sum_value(a, n);
}

/// A live backend as a pairing target: to decode what was prefilled elsewhere costs more by the
/// logarithm of the transfer penalty than to decode what was prefilled here, where decode warmth is
/// a hit; a warmer prefill cache makes prefill cheaper and leaves decode alone, and the other way
/// round.
pub proof fn live_targets_are_priced_by_phase<F: Fn(Real) -> Real>(
    b: BackendState,
    for_prefill: Option<Real>,
    for_decode: Option<Real>,
    penalty: Real,
    ln: F,
)
    requires
        separates(ln),
        b.inflight < HIDDEN_BIT,
        is_penalty(penalty),
        warmth_of(for_decode) > 0,
    ensures
        ({
            let t = live_target(b, for_prefill, for_decode, penalty, ln);
            &&& t.label == b.label
            &&& apart(t.far.value() - t.near.value(), value_at(ln, penalty).value()) <= pow2(1051)
            &&& forall|other: Option<Real>|
                (#[trigger] live_target(b, for_prefill, other, penalty, ln)).prefill == t.prefill
            &&& forall|other: Option<Real>|
                (#[trigger] live_target(b, other, for_decode, penalty, ln)).near == t.near
        }),
{
    let half = Real { bits: HALF_BITS };
    let t = live_target(b, for_prefill, for_decode, penalty, ln);
    let r = warmth_reward(for_decode);
    lemma_one_value();
    assert(units(0) == 0) by (nonlinear_arith);
    assert(r is Some);
    warmth_in_numbers(for_decode->0);
    lemma_pow2_unfold(1051);
    let none = Seq::<Real>::empty();
    assert(none.push(penalty) =~= seq![penalty]);
    logs_add_up(ln, none, penalty);
    cost_in_numbers(b, ln, none, r, half, false);
    cost_in_numbers(b, ln, seq![penalty], r, half, false);
    assert(larger(penalty, one()) == penalty);
}

/// A cache that is warmer by `2^-18` or more makes the phase it serves strictly cheaper.
pub proof fn warmer_targets_are_cheaper<F: Fn(Real) -> Real>(
    b: BackendState,
    colder: Option<Real>,
    warmer: Option<Real>,
    other: Option<Real>,
    penalty: Real,
    ln: F,
)
    requires
        separates(ln),
        b.inflight < HIDDEN_BIT,
        is_penalty(penalty),
        0 < warmth_of(colder),
        warmth_of(colder) + pow2(1056) <= warmth_of(warmer),
    ensures
        live_target(b, warmer, other, penalty, ln).prefill.below(
            live_target(b, colder, other, penalty, ln).prefill,
        ),
        live_target(b, other, warmer, penalty, ln).near.below(
            live_target(b, other, colder, penalty, ln).near,
        ),
        live_target(b, other, warmer, penalty, ln).far.below(
            live_target(b, other, colder, penalty, ln).far,
        ),
{
    let half = Real { bits: HALF_BITS };
    lemma_extremes();
    lemma_one_value();
    let none = Seq::<Real>::empty();
    assert(larger(penalty, one()) == penalty);
    lemma_warmer_cost(b, b, ln, none, colder, warmer, half, true);
    lemma_warmer_cost(b, b, ln, none, colder, warmer, half, false);
    lemma_warmer_cost(b, b, ln, seq![penalty], colder, warmer, half, false);
}

/// What a scored backend costs, in numbers: the logarithms of its service time, of one plus its
/// requests in flight and of what warmth leaves, and for decode that of the transfer penalty unless
/// it prefilled the request itself.
pub proof fn scored_costs_in_numbers<F: Fn(Real) -> Real>(
    b: ScoredBackend,
    strength: Option<Real>,
    prefill_label: Seq<char>,
    penalty: Real,
    ln: F,
)
    requires
        is_logarithm(ln),
        is_core(b.base_service_seconds),
        b.inflight < HIDDEN_BIT,
        is_penalty(penalty),
    ensures
        ({
            let own = value_at(ln, b.base_service_seconds).value() + value_at(
                ln,
                of_nat(b.inflight as nat + 1),
            ).value() + value_at(ln, warmth_share(strength)).value();
            let moved = if prefill_label == b.label@ {
                0
            } else {
                value_at(ln, penalty).value()
            };
            &&& apart(scored_prefill(b, strength, ln).value(), own) <= pow2(1050)
            &&& apart(
                scored_decode(b, strength, prefill_label, penalty, ln).value(),
                own + moved,
            ) <= pow2(1050)
        }),
{
    lemma_one_value();
    assert(units(0) == 0) by (nonlinear_arith);
    let none = Seq::<Real>::empty();
    let rewards = reward_list(strength);
    let base = b.base_service_seconds;
    let n = b.inflight as nat;
    logs_add_up(ln, none, one());
    if let Some(r) = warmth_reward(strength) {
        warmth_in_numbers(strength->0);
        logs_add_up(ln, none, r);
        assert(none.push(r) =~= rewards);
    }
    assert(logs_of(ln, rewards) == value_at(ln, warmth_share(strength)).value());
    service_log_in_numbers(ln, base, n, none, rewards);
    logs_add_up(ln, none, penalty);
    assert(none.push(penalty) =~= seq![penalty]);
    assert(larger(penalty, one()) == penalty);
    service_log_in_numbers(ln, base, n, seq![penalty], rewards);
    let counted = counted_penalties(none, prefill_label == b.label@, penalty);
    if prefill_label == b.label@ {
        assert(counted =~= none);
    } else {
        assert(counted =~= seq![penalty]);
    }
}

} // verus!
