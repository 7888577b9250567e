//! The routing snapshot that the data plane serves.

use vstd::prelude::*;
use std::sync::Arc;
use crate::binary64::{clamped, lemma_value_order, one, zero, Real, ONE_BITS};
use crate::config::{env_bool, flag};
use crate::ledger::label_view;

verus! {

/// One generation of the routing table.
#[derive(Debug, Clone, Copy, PartialEq, Eq, Structural)]
pub struct DataPlaneSnapshot {
    pub generation: u64,
    /// Share of capacity given to the prefill pool.
    pub pi: Real,
    pub published_at_ms: u64,
}

/// A share held between zero and one.
pub open spec fn share(pi: Real) -> Real {
    clamped(pi, zero(), one())
}

impl DataPlaneSnapshot {
    /// A snapshot taken at `now_ms`, its share held between zero and one.
    pub fn new(generation: u64, pi: Real, now_ms: u64) -> (r: DataPlaneSnapshot)
        ensures
            r == (DataPlaneSnapshot { generation, pi: share(pi), published_at_ms: now_ms }),
    {
        proof {
            lemma_value_order(one(), zero());
        }
        DataPlaneSnapshot {
            generation,
            pi: pi.clamp_to(Real::from_bits(0), Real::from_bits(ONE_BITS)),
            published_at_ms: now_ms,
        }
    }
}

/// An `arc_swap::ArcSwap` that holds the current snapshot.
///
/// Trusted: the field is private to this struct and is replaced only by [`SnapshotSlot::store`],
/// which takes the slot exclusively, so what a load gives back is what was stored last.
#[verifier::external_body]
#[derive(Debug)]
pub struct SnapshotSlot {
    inner: arc_swap::ArcSwap<DataPlaneSnapshot>,
}

/// Generation, share and time of the snapshot in a slot.
pub uninterp spec fn slot_fields(slot: SnapshotSlot) -> Seq<u64>;

/// Generation, share and time of a snapshot.
pub open spec fn fields(snap: DataPlaneSnapshot) -> Seq<u64> {
    seq![snap.generation, snap.pi.bits, snap.published_at_ms]
}

impl SnapshotSlot {
    /// Calls `arc_swap::ArcSwapAny::from_pointee`.
    ///
    /// Trusted: the slot holds the value it was made from.
    #[verifier::external_body]
    fn from_pointee(snap: DataPlaneSnapshot) -> (r: SnapshotSlot)
        ensures
            slot_fields(r) == fields(snap),
    {
        SnapshotSlot { inner: arc_swap::ArcSwap::from_pointee(snap) }
    }

    /// Calls `arc_swap::ArcSwapAny::load_full`.
    ///
    /// Trusted: the result is the value held by the slot.
    #[verifier::external_body]
    fn load_full(&self) -> (r: Arc<DataPlaneSnapshot>)
        ensures
            fields(*r) == slot_fields(*self),
    {
        self.inner.load_full()
    }

    /// Calls `arc_swap::ArcSwapAny::store`.
    ///
    /// Trusted: further loads give the new value.
    #[verifier::external_body]
    fn store(&mut self, snap: Arc<DataPlaneSnapshot>)
        ensures
            slot_fields(*final(self)) == fields(*snap),
    {
        self.inner.store(snap)
    }
}

/// The slot through which control publishes and the data plane reads.
#[derive(Debug)]
pub struct RcuRoutingTable {
    current: SnapshotSlot,
}

impl RcuRoutingTable {
    /// The snapshot served at present.
    pub closed spec fn current(self) -> DataPlaneSnapshot {
        let f = slot_fields(self.current);
        DataPlaneSnapshot { generation: f[0], pi: Real { bits: f[1] }, published_at_ms: f[2] }
    }

    /// A table that serves generation zero.
    pub fn new(initial_pi: Real, now_ms: u64) -> (r: RcuRoutingTable)
        ensures
            r.current() == (DataPlaneSnapshot {
                generation: 0,
                pi: share(initial_pi),
                published_at_ms: now_ms,
            }),
    {
        RcuRoutingTable {
            current: SnapshotSlot::from_pointee(DataPlaneSnapshot::new(0, initial_pi, now_ms)),
        }
    }

    /// The snapshot served at present.
    pub fn read(&self) -> (r: Arc<DataPlaneSnapshot>)
        ensures
            *r == self.current(),
    {
        let r = self.current.load_full();
        assert(fields(*r)[0] == r.generation && fields(*r)[1] == r.pi.bits && fields(*r)[2]
            == r.published_at_ms);
        r
    }

    /// The prefill share served at present.
    pub fn read_pi(&self) -> (r: Real)
        ensures
            r == self.current().pi,
    {
        self.read().pi
    }

    /// The generation served at present.
    pub fn generation(&self) -> (r: u64)
        ensures
            r == self.current().generation,
    {
        self.read().generation
    }

    /// Serves another snapshot from here on.
    pub fn publish(&mut self, snap: DataPlaneSnapshot)
        ensures
            final(self).current() == snap,
    {
        self.current.store(Arc::new(snap));
        assert(fields(snap)[0] == snap.generation && fields(snap)[1] == snap.pi.bits && fields(
            snap,
        )[2] == snap.published_at_ms);
    }

    /// Serves a share, held between zero and one, under the given generation.
    pub fn publish_pi(&mut self, generation: u64, pi: Real, now_ms: u64)
        ensures
            final(self).current() == (DataPlaneSnapshot {
                generation,
                pi: share(pi),
                published_at_ms: now_ms,
            }),
    {
        self.publish(DataPlaneSnapshot::new(generation, pi, now_ms));
    }

    /// Milliseconds since the snapshot was published; none if the clock went back.
    pub fn age_ms(&self, now_ms: u64) -> (r: u64)
        ensures
            r == age(self.current(), now_ms),
    {
        now_ms.saturating_sub(self.read().published_at_ms)
    }

    /// Whether the snapshot is older than `stale_ms`.
    pub fn is_stale(&self, now_ms: u64, stale_ms: u64) -> (r: bool)
        ensures
            r == (age(self.current(), now_ms) > stale_ms),
    {
        self.age_ms(now_ms) > stale_ms
    }
}

/// Milliseconds since a snapshot was published; none if the clock went back.
pub open spec fn age(snap: DataPlaneSnapshot, now_ms: u64) -> u64 {
    if now_ms < snap.published_at_ms {
        0
    } else {
        (now_ms - snap.published_at_ms) as u64
    }
}

/// A share as it is published: between zero and one, unless it is not a number.
pub open spec fn is_share(x: Real) -> bool {
    x.is_nan() || (zero().at_most(x) && x.at_most(one()))
}

/// What is held between zero and one is a share.
pub proof fn lemma_share(pi: Real)
    ensures
        is_share(share(pi)),
{
    if !pi.is_nan() {
        share_is_bounded(pi);
    }
}

/// A share that is a number is never below zero or above one.
pub proof fn share_is_bounded(pi: Real)
    requires
        !pi.is_nan(),
    ensures
        zero().at_most(share(pi)),
        share(pi).at_most(one()),
        share(share(pi)) == share(pi),
{
    lemma_value_order(one(), zero());
    lemma_value_order(pi, zero());
    lemma_value_order(one(), pi);
}

/// What the forwarding path acts on.
#[derive(Debug, Clone, Copy, PartialEq, Eq, Structural)]
pub struct ForwardDecision {
    pub pi: Real,
    pub generation: u64,
}

/// The reading side of the table, as the forwarding path uses it.
#[derive(Debug)]
pub struct IoUringForwarder<'a> {
    rcu: &'a RcuRoutingTable,
}

impl<'a> IoUringForwarder<'a> {
    /// The table that is read.
    pub closed spec fn table(self) -> RcuRoutingTable {
        *self.rcu
    }

    pub fn new(rcu: &'a RcuRoutingTable) -> (r: IoUringForwarder<'a>)
        ensures
            r.table() == *rcu,
    {
        IoUringForwarder { rcu }
    }

    pub fn rcu(&self) -> (r: &RcuRoutingTable)
        ensures
            *r == self.table(),
    {
        self.rcu
    }

    /// What the forwarding path acts on, from one snapshot.
    pub fn forward_decision(&self) -> (r: ForwardDecision)
        ensures
            r.pi == self.table().current().pi,
            r.generation == self.table().current().generation,
    {
        let snap = self.rcu.read();
        ForwardDecision { pi: snap.pi, generation: snap.generation }
    }

    /// The prefill share served at present.
    pub fn current_pi(&self) -> (r: Real)
        ensures
            r == self.table().current().pi,
    {
        self.rcu.read_pi()
    }

    /// Whether forwarding goes through a ring; `value` is what the environment says.
    pub fn io_uring_enabled_from_env(value: Option<&str>) -> (r: bool)
        ensures
            r == flag(label_view(value), false),
    {
        env_bool(value, false)
    }
}

} // verus!
