//! Placement of backends and the analytic cost of moving KV between them.

use vstd::prelude::*;
use vstd::arithmetic::power2::{
    lemma2_to64, lemma2_to64_rest, lemma_pow2_adds, lemma_pow2_pos, lemma_pow2_strictly_increases,
    pow2,
};
use crate::binary64::{
    adding_never_lowers, count_is_monotone, larger, lemma_count_below, lemma_nearest_bound,
    lemma_nearest_range, lemma_quotient_above, lemma_quotient_below, lemma_units_increase,
    lemma_units_of_power, lemma_value_order, of_nat, one, quotient, quotient_is_monotone, sum,
    sum_is_monotone, units, Real,
};
use crate::elementary::{evaluate, is_function, value_at};
use crate::factors::{is_core, is_penalty, BarrierFactor, TimeCore};
use crate::params::{
    RDMA_BASE_LATENCY_CROSS_CLUSTER_US, RDMA_BASE_LATENCY_SAME_CLUSTER_US,
    RDMA_BASE_LATENCY_SAME_NODE_US, RDMA_BASE_LATENCY_SAME_RACK_US, RDMA_LINK_BYTES_PER_S_BITS,
    RDMA_MIN_BARRIER_BITS, TOPOLOGY_RDMA_CROSS_CLUSTER, TOPOLOGY_RDMA_SAME_CLUSTER,
    TOPOLOGY_RDMA_SAME_NODE, TOPOLOGY_RDMA_SAME_RACK,
};
use crate::rounding::{nearest, HIDDEN_BIT};

verus! {

/// Where a backend runs.
#[derive(Debug, PartialEq, Eq, Hash)]
pub struct TopologyId {
    pub node: String,
    pub rack: String,
    pub cluster: String,
}

/// Where a backend runs, as the contracts see it.
pub struct Place {
    pub node: Seq<char>,
    pub rack: Seq<char>,
    pub cluster: Seq<char>,
}

impl View for TopologyId {
    type V = Place;

    open spec fn view(&self) -> Place {
        Place { node: self.node@, rack: self.rack@, cluster: self.cluster@ }
    }
}

/// The place of a backend that was given none.
pub open spec fn nowhere() -> Place {
    Place {
        node: Seq::<char>::empty(),
        rack: Seq::<char>::empty(),
        cluster: Seq::<char>::empty(),
    }
}

impl TopologyId {
    pub fn new(node: &str, rack: &str, cluster: &str) -> (r: TopologyId)
        ensures
            r@ == (Place { node: node@, rack: rack@, cluster: cluster@ }),
    {
        TopologyId { node: node.to_owned(), rack: rack.to_owned(), cluster: cluster.to_owned() }
    }
}

impl Clone for TopologyId {
    fn clone(&self) -> (r: TopologyId)
        ensures
            r@ == self@,
    {
        TopologyId {
            node: self.node.clone(),
            rack: self.rack.clone(),
            cluster: self.cluster.clone(),
        }
    }
}

impl Default for TopologyId {
    fn default() -> (r: TopologyId)
        ensures
            r@ == nowhere(),
    {
        TopologyId { node: String::new(), rack: String::new(), cluster: String::new() }
    }
}

/// Steps on the ladder from the same node to another cluster.
pub open spec fn distance(a: Place, b: Place) -> u64 {
    if a.node == b.node {
        TOPOLOGY_RDMA_SAME_NODE
    } else if a.rack == b.rack && a.cluster == b.cluster {
        TOPOLOGY_RDMA_SAME_RACK
    } else if a.cluster == b.cluster {
        TOPOLOGY_RDMA_SAME_CLUSTER
    } else {
        TOPOLOGY_RDMA_CROSS_CLUSTER
    }
}

/// Transfer distance between two places.
pub fn rdma_distance(a: &TopologyId, b: &TopologyId) -> (r: u64)
    ensures
        r == distance(a@, b@),
{
    if a.node == b.node {
        return TOPOLOGY_RDMA_SAME_NODE;
    }
    if a.rack == b.rack && a.cluster == b.cluster {
        return TOPOLOGY_RDMA_SAME_RACK;
    }
    if a.cluster == b.cluster {
        return TOPOLOGY_RDMA_SAME_CLUSTER;
    }
    TOPOLOGY_RDMA_CROSS_CLUSTER
}

/// The distance is the same in both directions, and none to the place itself.
pub proof fn distance_is_symmetric(a: Place, b: Place)
    ensures
        distance(a, b) == distance(b, a),
        distance(a, a) == TOPOLOGY_RDMA_SAME_NODE,
{
}

/// Base latency of a transfer over a distance.
pub open spec fn base_latency(d: u64) -> u64 {
    if d == TOPOLOGY_RDMA_SAME_NODE {
        RDMA_BASE_LATENCY_SAME_NODE_US
    } else if d == TOPOLOGY_RDMA_SAME_RACK {
        RDMA_BASE_LATENCY_SAME_RACK_US
    } else if d == TOPOLOGY_RDMA_SAME_CLUSTER {
        RDMA_BASE_LATENCY_SAME_CLUSTER_US
    } else {
        RDMA_BASE_LATENCY_CROSS_CLUSTER_US
    }
}

fn base_latency_us(distance: u64) -> (r: u64)
    ensures
        r == base_latency(distance),
{
    if distance == TOPOLOGY_RDMA_SAME_NODE {
        RDMA_BASE_LATENCY_SAME_NODE_US
    } else if distance == TOPOLOGY_RDMA_SAME_RACK {
        RDMA_BASE_LATENCY_SAME_RACK_US
    } else if distance == TOPOLOGY_RDMA_SAME_CLUSTER {
        RDMA_BASE_LATENCY_SAME_CLUSTER_US
    } else {
        RDMA_BASE_LATENCY_CROSS_CLUSTER_US
    }
}

/// Base latency plus bytes over bandwidth, in seconds.
pub open spec fn transfer_seconds(bytes: u64, d: u64) -> Real {
    sum(
        quotient(of_nat(base_latency(d) as nat), of_nat(1_000_000)),
        quotient(of_nat(bytes as nat), Real { bits: RDMA_LINK_BYTES_PER_S_BITS }),
    )
}

/// Predicted wall time of a KV transfer in seconds.
pub fn rdma_transfer_seconds(bytes: u64, distance: u64) -> (r: Real)
    ensures
        r == transfer_seconds(bytes, distance),
        r.finite(),
        !r.negative(),
        units(r.magnitude()) < pow2(1138),
{
    proof {
        transfer_seconds_are_bounded(bytes, distance);
    }
    let base: Real = Real::from_u64(base_latency_us(distance)).over(Real::from_u64(1_000_000));
    let link: Real = Real::from_bits(RDMA_LINK_BYTES_PER_S_BITS);
    base.plus(Real::from_u64(bytes).over(link))
}

/// A predicted transfer takes finite time: less than `2^32` seconds.
pub proof fn transfer_seconds_are_bounded(bytes: u64, d: u64)
    ensures
        transfer_seconds(bytes, d).finite(),
        !transfer_seconds(bytes, d).negative(),
        units(transfer_seconds(bytes, d).magnitude()) < pow2(1138),
{
    lemma2_to64();
    lemma2_to64_rest();
    lemma_count_below(base_latency(d) as nat, 7);
    lemma_count_below(1_000_000, 20);
    lemma_count_below(bytes as nat, 64);
    let link = Real { bits: RDMA_LINK_BYTES_PER_S_BITS };
    lemma_units_of_power(1107);
    lemma_units_increase((1056 * HIDDEN_BIT) as u64, RDMA_LINK_BYTES_PER_S_BITS);
    let base = quotient(of_nat(base_latency(d) as nat), of_nat(1_000_000));
    let rest = quotient(of_nat(bytes as nat), link);
    lemma_quotient_below(of_nat(base_latency(d) as nat), of_nat(1_000_000), 1081, 1074);
    lemma_quotient_below(of_nat(bytes as nat), link, 1138, 1107);
    lemma_pow2_strictly_increases(1081, 1105);
    lemma_pow2_adds(1, 1105);
    let v = units(base.magnitude()) + units(rest.magnitude());
    lemma_units_of_power(1106);
    let top = (1055 * HIDDEN_BIT) as u64;
    lemma_nearest_bound(v, 1, top);
    lemma_nearest_range(v, 1);
    if nearest(v, 1) < top {
        lemma_units_increase(nearest(v, 1), top);
    }
    lemma_pow2_strictly_increases(1106, 1138);
    assert(units(0) == 0) by (nonlinear_arith);
    lemma_pow2_pos(1138);
}

/// More bytes or a longer way never take less time.
pub proof fn longer_transfers_take_longer(bytes: u64, more_bytes: u64, d: u64, further: u64)
    requires
        bytes <= more_bytes,
        d <= further,
    ensures
        transfer_seconds(bytes, d).at_most(transfer_seconds(more_bytes, further)),
{
    transfer_seconds_are_bounded(bytes, d);
    let near = of_nat(base_latency(d) as nat);
    let far = of_nat(base_latency(further) as nat);
    let million = of_nat(1_000_000);
    let link = Real { bits: RDMA_LINK_BYTES_PER_S_BITS };
    count_is_monotone(base_latency(d) as nat, base_latency(further) as nat);
    count_is_monotone(bytes as nat, more_bytes as nat);
    count_is_monotone(1, 1_000_000);
    lemma2_to64();
    lemma2_to64_rest();
    lemma_count_below(1_000_000, 20);
    lemma_count_below(base_latency(d) as nat, 7);
    lemma_count_below(base_latency(further) as nat, 7);
    lemma_count_below(bytes as nat, 64);
    lemma_count_below(more_bytes as nat, 64);
    quotient_is_monotone(near, far, million);
    quotient_is_monotone(of_nat(bytes as nat), of_nat(more_bytes as nat), link);
    lemma_units_of_power(1107);
    lemma_units_increase((1056 * HIDDEN_BIT) as u64, RDMA_LINK_BYTES_PER_S_BITS);
    lemma_quotient_below(near, million, 1081, 1074);
    lemma_quotient_below(far, million, 1081, 1074);
    lemma_quotient_below(of_nat(bytes as nat), link, 1138, 1107);
    lemma_quotient_below(of_nat(more_bytes as nat), link, 1138, 1107);
    sum_is_monotone(
        quotient(near, million),
        quotient(far, million),
        quotient(of_nat(bytes as nat), link),
        quotient(of_nat(more_bytes as nat), link),
    );
}

/// Every predicted transfer takes a usable time, and its ratio to the base latency within one node
/// is a usable penalty.
pub proof fn transfers_take_time(bytes: u64, d: u64)
    ensures
        is_core(transfer_seconds(bytes, d)),
        is_penalty(transfer_ratio(bytes, d)),
{
    transfer_seconds_are_bounded(bytes, d);
    lemma2_to64();
    lemma2_to64_rest();
    let million = of_nat(1_000_000);
    let latency = of_nat(base_latency(d) as nat);
    let nominal = of_nat(RDMA_BASE_LATENCY_SAME_NODE_US as nat);
    let link = Real { bits: RDMA_LINK_BYTES_PER_S_BITS };
    lemma_count_below(1_000_000, 20);
    lemma_count_below(base_latency(d) as nat, 7);
    lemma_count_below(RDMA_BASE_LATENCY_SAME_NODE_US as nat, 7);
    lemma_count_below(bytes as nat, 64);
    assert(units(0) == 0) by (nonlinear_arith);
    lemma_pow2_pos(1054);
    lemma_pow2_pos(1074);
    assert(million.magnitude() > 0);
    lemma_units_of_power(1107);
    lemma_units_increase((1056 * HIDDEN_BIT) as u64, RDMA_LINK_BYTES_PER_S_BITS);
    let base = quotient(latency, million);
    let rest = quotient(of_nat(bytes as nat), link);
    lemma_quotient_above(latency, million, 1074, 1094);
    lemma_quotient_below(latency, million, 1081, 1074);
    lemma_quotient_below(of_nat(bytes as nat), link, 1138, 1107);
    adding_never_lowers(base, rest);
    let seconds = transfer_seconds(bytes, d);
    assert(seconds.value() > 0);
    let unit = quotient(nominal, million);
    lemma_quotient_above(nominal, million, 1074, 1094);
    lemma_quotient_below(nominal, million, 1081, 1074);
    lemma_quotient_below(seconds, unit, 1138, 1054);
    let ratio = quotient(seconds, unit);
    let least = Real { bits: RDMA_MIN_BARRIER_BITS };
    lemma_value_order(least, one());
    lemma_value_order(ratio, least);
    lemma_value_order(ratio, one());
}

/// The logarithm of the predicted transfer time.
pub open spec fn transfer_log<F: Fn(Real) -> Real>(ln: F, bytes: u64, d: u64) -> Real {
    value_at(ln, transfer_seconds(bytes, d))
}

/// The logarithm of the predicted transfer time; `ln` is the natural logarithm.
pub fn rdma_transfer_ln<F: Fn(Real) -> Real>(
    bytes: u64,
    pf: &TopologyId,
    dc: &TopologyId,
    ln: F,
) -> (r: Real)
    requires
        is_function(ln),
    ensures
        r == transfer_log(ln, bytes, distance(pf@, dc@)),
{
    proof {
        transfers_take_time(bytes, distance(pf@, dc@));
    }
    let seconds: Real = rdma_transfer_seconds(bytes, rdma_distance(pf, dc));
    let core: TimeCore = TimeCore::new(seconds).unwrap();
    evaluate(ln, core.get())
}

/// The predicted transfer time relative to the base latency within one node.
pub open spec fn transfer_ratio(bytes: u64, d: u64) -> Real {
    larger(
        quotient(
            transfer_seconds(bytes, d),
            quotient(of_nat(RDMA_BASE_LATENCY_SAME_NODE_US as nat), of_nat(1_000_000)),
        ),
        Real { bits: RDMA_MIN_BARRIER_BITS },
    )
}

/// A barrier for a transfer, relative to the base latency within one node.
pub fn rdma_transfer_barrier(bytes: u64, pf: &TopologyId, dc: &TopologyId) -> (r: BarrierFactor)
    ensures
        r.factor() == transfer_ratio(bytes, distance(pf@, dc@)),
{
    let seconds: Real = rdma_transfer_seconds(bytes, rdma_distance(pf, dc));
    let nominal: Real = Real::from_u64(RDMA_BASE_LATENCY_SAME_NODE_US).over(
        Real::from_u64(1_000_000),
    );
    let ratio: Real = seconds.over(nominal).max_with(Real::from_bits(RDMA_MIN_BARRIER_BITS));
    proof {
        transfers_take_time(bytes, distance(pf@, dc@));
    }
    BarrierFactor::new(ratio).unwrap()
}

#[derive(Debug)]
struct TopologyEntry {
    label: String,
    place: TopologyId,
}

/// Places of backends by label.
#[derive(Debug)]
pub struct TopologyMap {
    entries: Vec<TopologyEntry>,
}

/// The entries as a map; of two for one label the later counts.
spec fn entry_map(entries: Seq<TopologyEntry>) -> Map<Seq<char>, Place>
    decreases entries.len(),
{
    if entries.len() == 0 {
        Map::empty()
    } else {
        entry_map(entries.drop_last()).insert(entries.last().label@, entries.last().place@)
    }
}

impl View for TopologyMap {
    type V = Map<Seq<char>, Place>;

    closed spec fn view(&self) -> Map<Seq<char>, Place> {
        entry_map(self.entries@)
    }
}

/// The place of a label, or nowhere.
pub open spec fn place_of(map: Map<Seq<char>, Place>, label: Seq<char>) -> Place {
    if map.contains_key(label) {
        map[label]
    } else {
        nowhere()
    }
}

impl TopologyMap {
    pub fn new() -> (r: TopologyMap)
        ensures
            r@ == Map::<Seq<char>, Place>::empty(),
    {
        TopologyMap { entries: Vec::new() }
    }

    /// Sets the place of a label.
    pub fn insert(&mut self, label: &str, place: TopologyId)
        ensures
            final(self)@ == old(self)@.insert(label@, place@),
    {
        let ghost before = self.entries@;
        self.entries.push(TopologyEntry { label: label.to_owned(), place });
        assert(self.entries@.drop_last() =~= before);
    }

    /// The place of a label; one that is not known runs nowhere in particular.
    pub fn place(&self, label: &str) -> (r: TopologyId)
        ensures
            r@ == place_of(self@, label@),
    {
        let wanted: String = label.to_owned();
        let mut i: usize = self.entries.len();
        assert(self.entries@.take(i as int) =~= self.entries@);
        while i > 0
            invariant
                i <= self.entries@.len(),
                wanted@ == label@,
                place_of(self@, label@) == place_of(
                    entry_map(self.entries@.take(i as int)),
                    label@,
                ),
            decreases i,
        {
            let ghost now = self.entries@.take(i as int);
            i = i - 1;
            assert(now.drop_last() =~= self.entries@.take(i as int));
            assert(now.last() == self.entries@[i as int]);
            if self.entries[i].label == wanted {
                return self.entries[i].place.clone();
            }
        }
        TopologyId::default()
    }
}

} // verus!
