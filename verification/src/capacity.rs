//! What memory and admission promise, in numbers: footprints, quotas, reservations, the size of the
//! admission bucket.

use vstd::prelude::*;
use vstd::arithmetic::power2::{
    lemma2_to64, lemma2_to64_rest, lemma_pow2_adds, lemma_pow2_pos, lemma_pow2_strictly_increases,
    lemma_pow2_unfold, pow2,
};
use crate::admission::{at_least_one, scaled_capacity, ADMIT_SHARE_FLOOR_BITS};
use crate::binary64::{
    clamped, lemma_count_is_exact, lemma_one_value, lemma_ratio_error, lemma_value_order, of_nat,
    one, product, rounded, signed, units, zero, Real,
};
use crate::factors::apart;
use crate::kv::{block_tokens, p90_of, payload_bytes, rank90, reserved_bytes};
use crate::ledger::{
    all_bytes, bytes_of, lemma_sum_insert, source_quota, AdmitError, LedgerState, Reservation,
};
use crate::rounding::nearest;
use crate::stats::ascending;

verus! {

/// A footprint in numbers: whole blocks of 256 tokens, the fewest that hold the prompt, times the
/// bytes of a token, plus fifteen percent in two parts that are each rounded up to a byte.
pub proof fn footprint_in_numbers(prompt_tokens: nat, bytes_per_token: nat)
    requires
        block_tokens(prompt_tokens) * bytes_per_token <= u64::MAX,
    ensures
        prompt_tokens <= block_tokens(prompt_tokens) < prompt_tokens + 256,
        block_tokens(prompt_tokens) % 256 == 0,
        payload_bytes(prompt_tokens, bytes_per_token) == block_tokens(prompt_tokens)
            * bytes_per_token,
        23 * payload_bytes(prompt_tokens, bytes_per_token) <= 20 * reserved_bytes(
            prompt_tokens,
            bytes_per_token,
        ) < 23 * payload_bytes(prompt_tokens, bytes_per_token) + 40,
{
}

/// One source may hold a quarter of the capacity, rounded up; of no capacity one byte.
pub proof fn quota_is_a_quarter(capacity: u64)
    ensures
        capacity > 0 ==> capacity <= 4 * source_quota(capacity) < capacity + 4,
        capacity == 0 ==> source_quota(capacity) == 1,
{
}

/// A request is granted exactly if it asks for something, holds nothing yet, and fits both into
/// the free capacity and into a quarter of the capacity with what its source holds already. A
/// granted request is on record with its bytes, time and source, and counts for its source alone;
/// a refused one changes no reservation.
pub proof fn granted_exactly_if_it_fits(
    s: LedgerState,
    source: Option<Seq<char>>,
    id: u64,
    bytes: u64,
    now_ns: u64,
    label: Seq<char>,
)
    requires
        s.valid(),
    ensures
        ({
            let t = s.after_reserve(source, id, bytes, now_ns);
            let fits = {
                &&& bytes > 0
                &&& !s.reservations.contains_key(id)
                &&& s.reserved() + bytes <= s.capacity
                &&& source is Some ==> 4 * (s.outstanding(source->0) + bytes) < s.capacity + 4
            };
            &&& fits <==> s.admits(source, id, bytes) is Ok
            &&& fits ==> {
                &&& t.reservations.contains_key(id)
                &&& t.reservations[id] == (Reservation { bytes, created_ns: now_ns, source })
                &&& t.reserved() == s.reserved() + bytes
                &&& source == Some(label) ==> t.outstanding(label) == s.outstanding(label) + bytes
                &&& source != Some(label) ==> t.outstanding(label) == s.outstanding(label)
                &&& forall|other: u64|
                    other != id ==> (#[trigger] t.reservations.contains_key(other)
                        == s.reservations.contains_key(other))
            }
            &&& !fits ==> t.reservations == s.reservations
            &&& s.admits(source, id, bytes) == Err::<(), AdmitError>(AdmitError::DuplicateRequest)
                <==> bytes > 0 && s.reservations.contains_key(id)
        }),
{
    quota_is_a_quarter(s.capacity);
    assert(s.capacity == 0 ==> s.reserved() == 0);
    if s.admits(source, id, bytes) is Ok {
        let r = Reservation { bytes, created_ns: now_ns, source };
        lemma_sum_insert(s.reservations, all_bytes(), id, r);
        lemma_sum_insert(s.reservations, bytes_of(label), id, r);
    }
}

/// A reservation survives reclaiming exactly if it is younger than ten minutes, and then with
/// what it held.
pub proof fn abandoned_means_ten_minutes(s: LedgerState, now_ns: u64, id: u64)
    ensures
        ({
            let t = s.after_reclaim(now_ns);
            &&& t.reservations.contains_key(id) <==> s.reservations.contains_key(id) && now_ns
                < s.reservations[id].created_ns + 600_000_000_000
            &&& t.reservations.contains_key(id) ==> t.reservations[id] == s.reservations[id]
            &&& s.outlived(now_ns).contains_key(id) <==> s.reservations.contains_key(id) && now_ns
                >= s.reservations[id].created_ns + 600_000_000_000
        }),
{
}

/// The typical increment is the least sample that nine tenths of the samples do not exceed: in
/// ascending order it stands at the first place from which nine tenths lie behind.
pub proof fn typical_increment_in_numbers(samples: Seq<u64>)
    requires
        samples.len() > 0,
    ensures
        ({
            let t = ascending(samples);
            let i = rank90(samples.len());
            &&& t.to_multiset() == samples.to_multiset()
            &&& t.len() == samples.len()
            &&& forall|a: int, b: int| 0 <= a < b < t.len() ==> t[a] <= t[b]
            &&& 0 <= i < t.len()
            &&& 10 * i < 9 * samples.len() <= 10 * (i + 1)
            &&& p90_of(samples) == t[i]
        }),
{
    let leq = |a: u64, b: u64| a <= b;
    samples.lemma_sort_by_ensures(leq);
    let t = ascending(samples);
    assert(t.to_multiset() == samples.to_multiset());
    samples.to_multiset_ensures();
    t.to_multiset_ensures();
    assert forall|a: int, b: int| 0 <= a < b < t.len() implies t[a] <= t[b] by {
        assert(leq(t[a], t[b]));
    }
}

/// A burst times a share, to the nearest token.
proof fn lemma_bucket(burst: u64, pi: Real)
    requires
        burst < 0x1_0000_0000,
        pi.finite(),
        !pi.negative(),
        pi.value() <= pow2(1074),
        pow2(1074) <= burst * pi.value(),
    ensures
        apart(
            2 * at_least_one(rounded(product(of_nat(burst as nat), pi))) * pow2(1074),
            2 * burst * pi.value(),
        ) <= pow2(1074) + pow2(1055),
{
    let k = pow2(1074);
    lemma_pow2_pos(1074);
    lemma2_to64();
    lemma2_to64_rest();
    assert(units(0) == 0) by (nonlinear_arith);
    let b = burst as nat;
    let x = pi.value() as nat;
    lemma_count_is_exact(b);
    let n = (b * k) * x;
    lemma_pow2_adds(32, 1074);
    lemma_pow2_unfold(1107);
    assert(b * x <= pow2(1106)) by (nonlinear_arith)
        requires
            b < 0x1_0000_0000,
            x <= k,
            pow2(1106) == 0x1_0000_0000 * k,
    ;
    lemma_pow2_pos(1106);
    assert(n < pow2(1107) * k) by (nonlinear_arith)
        requires
            n == (b * k) * x,
            b * x <= pow2(1106),
            pow2(1107) == 2 * pow2(1106),
            pow2(1106) > 0,
            k > 0,
    ;
    lemma_ratio_error(n, k, 1107);
    let p = product(of_nat(b), pi);
    assert(p == signed(false, nearest(n, k)));
    let v = units(nearest(n, k));
    let h = pow2(1053);
    assert(v - b * x <= h && b * x - v <= h) by (nonlinear_arith)
        requires
            v * k - n <= k * h,
            n - v * k <= k * h,
            n == (b * k) * x,
            k > 0,
    ;
    lemma_pow2_unfold(1054);
    lemma_pow2_unfold(1055);
    lemma_pow2_pos(1053);
    lemma_pow2_strictly_increases(1055, 1074);
    let c = (2 * v + k) / (2 * k);
    vstd::arithmetic::div_mod::lemma_fundamental_div_mod((2 * v + k) as int, (2 * k) as int);
    let r = (2 * v + k) % (2 * k);
    assert(2 * v + k == (2 * k) * c + r && 0 <= r < 2 * k);
    assert(2 * c * k == (2 * k) * c) by (nonlinear_arith);
    assert(c >= 1) by (nonlinear_arith)
        requires
            (2 * k) * c + r >= 2 * k,
            r < 2 * k,
            k > 0,
    ;
    assert(c <= u64::MAX) by (nonlinear_arith)
        requires
            (2 * k) * c <= 2 * (0x1_0000_0000 * k) + 3 * k,
            k > 0,
    ;
    assert(rounded(p) == c);
    assert(2 * burst * pi.value() == 2 * (b * x)) by (nonlinear_arith)
        requires
            b == burst,
            x == pi.value(),
    ;
}

/// The floor of a share in the bucket is a tenth.
proof fn lemma_admit_floor()
    ensures
        ({
            let floor = Real { bits: ADMIT_SHARE_FLOOR_BITS };
            &&& floor.finite() && !floor.negative()
            &&& apart(10 * floor.value(), pow2(1074) as int) <= pow2(1026)
            &&& 0 < floor.value() <= pow2(1074)
        }),
{
    lemma2_to64();
    lemma2_to64_rest();
    let z = pow2(1018);
    lemma_pow2_pos(1018);
    lemma_pow2_adds(56, 1018);
    lemma_pow2_adds(8, 1018);
    assert(crate::binary64::significand(ADMIT_SHARE_FLOOR_BITS) == 0x19_9999_9999_999a);
    assert(crate::binary64::shift(ADMIT_SHARE_FLOOR_BITS) == 1018);
    assert((Real { bits: ADMIT_SHARE_FLOOR_BITS }).value() == 0x19_9999_9999_999a * z);
}

/// The admission bucket in numbers: the burst times the share, to the nearest token, for every
/// share of at least a tenth that leaves a whole token; a smaller share counts as a tenth.
pub proof fn bucket_in_numbers(burst: u64, pi: Real)
    requires
        20 <= burst < 0x1_0000_0000,
        pi.finite(),
        pi.value() <= pow2(1074),
    ensures
        pow2(1074) + pow2(1026) <= 10 * pi.value() ==> apart(
            2 * scaled_capacity(burst, pi) * pow2(1074),
            2 * burst * pi.value(),
        ) <= pow2(1074) + pow2(1055),
        10 * pi.value() < pow2(1074) - pow2(1026) ==> apart(
            20 * scaled_capacity(burst, pi) * pow2(1074),
            2 * burst * pow2(1074),
        ) <= 10 * pow2(1074) + pow2(1060),
{
    let k = pow2(1074) as int;
    let floor = Real { bits: ADMIT_SHARE_FLOOR_BITS };
    lemma_admit_floor();
    lemma_one_value();
    lemma_pow2_pos(1026);
    lemma2_to64();
    lemma2_to64_rest();
    lemma_pow2_adds(48, 1026);
    lemma_pow2_adds(34, 1026);
    lemma_pow2_adds(29, 1026);
    assert(units(0) == 0) by (nonlinear_arith);
    let b = burst as int;
    if pow2(1074) + pow2(1026) <= 10 * pi.value() {
        lemma_value_order(pi, zero());
        let x = pi.value();
        assert(k <= b * x) by (nonlinear_arith)
            requires
                b >= 20,
                10 * x >= k,
                k > 0,
        ;
        lemma_bucket(burst, pi);
        assert(clamped(pi, floor, one()) == pi);
    }
    if 10 * pi.value() < pow2(1074) - pow2(1026) {
        let x = floor.value();
        let e = pow2(1026) as int;
        assert(k <= b * x) by (nonlinear_arith)
            requires
                b >= 20,
                10 * x >= k - e,
                k == 0x1_0000_0000_0000 * e,
                e > 0,
        ;
        lemma_bucket(burst, floor);
        assert(clamped(pi, floor, one()) == floor);
        assert(10 * (b * x) - b * k <= b * e && b * k - 10 * (b * x) <= b * e) by (nonlinear_arith)
            requires
                10 * x - k <= e,
                k - 10 * x <= e,
                b > 0,
        ;
        assert(b * e <= 0x1_0000_0000 * e) by (nonlinear_arith)
            requires
                b < 0x1_0000_0000,
                e > 0,
        ;
        let n = scaled_capacity(burst, pi) as int;
        assert(20 * n * k == 10 * (2 * n * k) && 2 * b * x == 2 * (b * x) && 2 * b * k == 2 * (b * k))
            by (nonlinear_arith);
    }
}

} // verus!
