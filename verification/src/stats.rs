//! Order statistics over samples.

use vstd::prelude::*;
use vstd::seq_lib::lemma_sorted_unique;

verus! {

/// The samples in ascending order.
pub open spec fn ascending(samples: Seq<u64>) -> Seq<u64> {
    samples.sort_by(|a: u64, b: u64| a <= b)
}

/// `ceil(n * num / den)`.
pub open spec fn ceil_ratio(n: nat, num: nat, den: nat) -> nat {
    ((n * num + den - 1) / den as int) as nat
}

/// Sorts in place by calling `<[u64]>::sort_unstable`.
///
/// Trusted: the elements afterwards are those from before, each as often as it
/// was there, in ascending order.
#[verifier::external_body]
fn sort_samples(samples: &mut Vec<u64>)
    ensures
        final(samples)@.to_multiset() == old(samples)@.to_multiset(),
        forall|i: int, j: int|
            0 <= i <= j < final(samples)@.len() ==> final(samples)@[i] <= final(samples)@[j],
{
    samples.sort_unstable();
}

/// Sorts the samples into ascending order.
pub fn sorted(samples: Vec<u64>) -> (r: Vec<u64>)
    ensures
        r@ == ascending(samples@),
        r@.len() == samples@.len(),
{
    let mut out: Vec<u64> = samples;
    let ghost before = out@;
    sort_samples(&mut out);
    proof {
        let leq = |a: u64, b: u64| a <= b;
        before.lemma_sort_by_ensures(leq);
        before.to_multiset_ensures();
        out@.to_multiset_ensures();
        assert(vstd::relations::sorted_by(out@, leq));
        lemma_sorted_unique(out@, ascending(before), leq);
    }
    out
}

/// Sorting neither adds nor drops a sample.
pub proof fn lemma_ascending_len(samples: Seq<u64>)
    ensures
        ascending(samples).len() == samples.len(),
{
    samples.lemma_sort_by_ensures(|a: u64, b: u64| a <= b);
    samples.to_multiset_ensures();
    ascending(samples).to_multiset_ensures();
}

/// Sorted samples are in ascending order, and each of them is one of the samples.
pub proof fn lemma_ascending_sorted(samples: Seq<u64>)
    ensures
        forall|i: int, j: int|
            0 <= i <= j < ascending(samples).len() ==> ascending(samples)[i] <= ascending(
                samples,
            )[j],
        forall|i: int|
            0 <= i < ascending(samples).len() ==> samples.contains(#[trigger] ascending(samples)[i]),
{
    let leq = |a: u64, b: u64| a <= b;
    samples.lemma_sort_by_ensures(leq);
    samples.to_multiset_ensures();
    ascending(samples).to_multiset_ensures();
    assert forall|i: int, j: int| 0 <= i <= j < ascending(samples).len() implies ascending(
        samples,
    )[i] <= ascending(samples)[j] by {
        if i < j {
            assert(leq(ascending(samples)[i], ascending(samples)[j]));
        }
    }
    assert forall|i: int| 0 <= i < ascending(samples).len() implies samples.contains(
        #[trigger] ascending(samples)[i],
    ) by {
        assert(ascending(samples).to_multiset().count(ascending(samples)[i]) > 0);
    }
}

/// Zero-based index of the given percentile among `n` samples.
pub open spec fn percentile_index(n: nat, percent: nat) -> int {
    if n * percent / 100 >= n {
        n - 1
    } else {
        (n * percent / 100) as int
    }
}

/// The given percentile of the samples; zero without samples.
pub open spec fn percentile_of(samples: Seq<u64>, percent: nat) -> u64 {
    if samples.len() == 0 {
        0
    } else {
        ascending(samples)[percentile_index(samples.len(), percent)]
    }
}

/// The given percentile of samples already in ascending order.
pub fn percentile_sorted(sorted: &Vec<u64>, percent: u64) -> (r: u64)
    requires
        percent <= 100,
    ensures
        r == if sorted@.len() == 0 {
            0
        } else {
            sorted@[percentile_index(sorted@.len(), percent as nat)]
        },
{
    let n: usize = sorted.len();
    if n == 0 {
        return 0;
    }
    assert(0 <= n * percent <= usize::MAX * 100) by (nonlinear_arith)
        requires
            0 <= n <= usize::MAX,
            0 <= percent <= 100,
    ;
    let at: u128 = n as u128 * percent as u128 / 100;
    if at >= n as u128 {
        sorted[n - 1]
    } else {
        sorted[at as usize]
    }
}

/// A higher percentile is never smaller.
pub proof fn percentiles_are_ordered(samples: Seq<u64>, low: nat, high: nat)
    requires
        low <= high,
    ensures
        percentile_of(samples, low) <= percentile_of(samples, high),
{
    let n = samples.len();
    if n > 0 {
        lemma_ascending_len(samples);
        lemma_ascending_sorted(samples);
        assert(n * low / 100 <= n * high / 100) by (nonlinear_arith)
            requires
                low <= high,
        ;
        assert(0 <= percentile_index(n, low) <= percentile_index(n, high) < n);
    }
}

} // verus!
