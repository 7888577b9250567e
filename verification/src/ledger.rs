//! Fleet-wide KV reservation ledger of the decode pool.
//!
//! Every byte reserved belongs to exactly one request. The running total and the
//! per-source totals are always the sums over the reservations held, never above
//! the pool's capacity or the per-source cap.

use vstd::prelude::*;
use std::collections::{HashMap, VecDeque};
use crate::binary64::Real;
use crate::factors::{phi_barrier_marginal, phi_factor, BarrierFactor};
use crate::kv::{footprint_countable, kv_breakdown, p90_of, percentile90, reserved_bytes};
use crate::migration::MigrationDecision;
use crate::params::{KV_ABANDONED_SESSION_TTL_S, KV_MAX_OUTSTANDING_PER_SOURCE_PERMILLE};
use crate::stats::ceil_ratio;

verus! {

broadcast use vstd::std_specs::hash::group_hash_axioms;

/// How many admitted sizes the p90 increment is taken over.
pub const RECENT_SAMPLES: usize = 256;

/// Nanoseconds in one second.
pub const NANOS_PER_SEC: u64 = 1_000_000_000;

/// Counters of the ledger.
#[derive(Debug, Clone, Copy, PartialEq, Eq, Structural)]
pub struct LedgerMetrics {
    pub kv_bytes_reserved: u64,
    pub kv_admit_rejects_total: u64,
    pub kv_reservation_error: u64,
}

/// Why a reservation was refused.
#[derive(Debug, Clone, Copy, PartialEq, Eq, Structural)]
pub enum AdmitError {
    OverCapacity,
    DuplicateRequest,
}

impl AdmitError {
    /// The message shown to operators.
    pub fn message(&self) -> (r: &'static str)
        ensures
            r@ == match *self {
                AdmitError::OverCapacity => "decode pool KV capacity exceeded"@,
                AdmitError::DuplicateRequest => "request already reserved"@,
            },
    {
        match self {
            AdmitError::OverCapacity => "decode pool KV capacity exceeded",
            AdmitError::DuplicateRequest => "request already reserved",
        }
    }
}

/// One request's reservation, as the contracts see it.
pub struct Reservation {
    pub bytes: u64,
    pub created_ns: u64,
    pub source: Option<Seq<char>>,
}

/// What the ledger holds, as the contracts see it.
pub struct LedgerState {
    pub capacity: u64,
    pub max_per_source: u64,
    pub reservations: Map<u64, Reservation>,
    pub recent: Seq<u64>,
    pub admit_rejects: u64,
    pub reservation_errors: u64,
}

/// Sum of a weight over all reservations.
pub open spec fn sum_over(m: Map<u64, Reservation>, weight: spec_fn(Reservation) -> nat) -> nat
    decreases m.dom().len(),
{
    if m.dom().finite() && m.dom().len() > 0 {
        let id = m.dom().choose();
        weight(m[id]) + sum_over(m.remove(id), weight)
    } else {
        0
    }
}

/// Every reservation counts with its bytes.
pub open spec fn all_bytes() -> spec_fn(Reservation) -> nat {
    |r: Reservation| r.bytes as nat
}

/// Only reservations attributed to `label` count.
pub open spec fn bytes_of(label: Seq<char>) -> spec_fn(Reservation) -> nat {
    |r: Reservation|
        if r.source == Some(label) {
            r.bytes as nat
        } else {
            0
        }
}

/// `n + 1`, starting over at zero.
pub open spec fn wrapping_next(n: u64) -> u64 {
    if n == u64::MAX {
        0
    } else {
        (n + 1) as u64
    }
}

/// The samples after one more, the oldest dropped once `max` are held.
pub open spec fn push_bounded<T>(samples: Seq<T>, max: nat, sample: T) -> Seq<T> {
    if samples.len() >= max {
        samples.drop_first().push(sample)
    } else {
        samples.push(sample)
    }
}

/// The view of an optional label.
pub open spec fn label_view(label: Option<&str>) -> Option<Seq<char>> {
    match label {
        Some(l) => Some(l@),
        None => None,
    }
}

/// Most bytes that one prefill source may hold of a capacity.
pub open spec fn source_quota(capacity: u64) -> u64 {
    if capacity == 0 {
        1
    } else {
        ceil_ratio(capacity as nat, KV_MAX_OUTSTANDING_PER_SOURCE_PERMILLE as nat, 1000) as u64
    }
}

/// A ledger without any reservation.
pub open spec fn fresh_ledger(capacity: u64) -> LedgerState {
    LedgerState {
        capacity,
        max_per_source: source_quota(capacity),
        reservations: Map::empty(),
        recent: Seq::empty(),
        admit_rejects: 0,
        reservation_errors: 0,
    }
}

impl LedgerState {
    /// Bytes reserved over the whole fleet.
    pub open spec fn reserved(self) -> nat {
        sum_over(self.reservations, all_bytes())
    }

    /// Bytes held on behalf of one prefill source.
    pub open spec fn outstanding(self, label: Seq<char>) -> nat {
        sum_over(self.reservations, bytes_of(label))
    }

    /// The memory-pressure factor: reservations plus one typical increment over the capacity.
    pub open spec fn phi(self) -> Real {
        phi_factor(
            if self.reserved() + p90_of(self.recent) > u64::MAX {
                u64::MAX as nat
            } else {
                self.reserved() + p90_of(self.recent) as nat
            },
            self.capacity as nat,
        )
    }

    /// What every ledger satisfies.
    pub open spec fn valid(self) -> bool {
        &&& self.max_per_source == source_quota(self.capacity)
        &&& self.reservations.dom().finite()
        &&& self.reserved() <= self.capacity
        &&& forall|label: Seq<char>| #[trigger]
            self.outstanding(label) <= self.max_per_source
        &&& forall|id: u64| #[trigger]
            self.reservations.contains_key(id) ==> self.reservations[id].bytes > 0
        &&& self.recent.len() <= RECENT_SAMPLES
    }

    /// How a request for `bytes` is answered.
    pub open spec fn admits(self, source: Option<Seq<char>>, id: u64, bytes: u64) -> Result<
        (),
        AdmitError,
    > {
        if bytes == 0 {
            Err(AdmitError::OverCapacity)
        } else if self.reservations.contains_key(id) {
            Err(AdmitError::DuplicateRequest)
        } else if self.reserved() + bytes > self.capacity {
            Err(AdmitError::OverCapacity)
        } else if source is Some && self.outstanding(source->0) + bytes > self.max_per_source {
            Err(AdmitError::OverCapacity)
        } else {
            Ok(())
        }
    }

    /// The ledger after a request for `bytes` was answered.
    pub open spec fn after_reserve(
        self,
        source: Option<Seq<char>>,
        id: u64,
        bytes: u64,
        now_ns: u64,
    ) -> LedgerState {
        match self.admits(source, id, bytes) {
            Ok(_) => LedgerState {
                reservations: self.reservations.insert(
                    id,
                    Reservation { bytes, created_ns: now_ns, source },
                ),
                recent: push_bounded(self.recent, RECENT_SAMPLES as nat, bytes),
                ..self
            },
            Err(AdmitError::OverCapacity) => LedgerState {
                admit_rejects: wrapping_next(self.admit_rejects),
                ..self
            },
            Err(AdmitError::DuplicateRequest) => self,
        }
    }

    /// The ledger after a release; one for an unknown request is counted.
    pub open spec fn after_release(self, id: u64) -> LedgerState {
        if self.reservations.contains_key(id) {
            LedgerState { reservations: self.reservations.remove(id), ..self }
        } else {
            LedgerState { reservation_errors: wrapping_next(self.reservation_errors), ..self }
        }
    }

    /// Whether the reservation of `id` has outlived its session.
    pub open spec fn expired(self, id: u64, now_ns: u64) -> bool {
        &&& self.reservations.contains_key(id)
        &&& now_ns - self.reservations[id].created_ns >= KV_ABANDONED_SESSION_TTL_S * NANOS_PER_SEC
    }

    /// The reservations that have outlived their session.
    pub open spec fn outlived(self, now_ns: u64) -> Map<u64, Reservation> {
        Map::new(|id: u64| self.expired(id, now_ns), |id: u64| self.reservations[id])
    }

    /// The ledger without the reservations that have outlived their session.
    pub open spec fn after_reclaim(self, now_ns: u64) -> LedgerState {
        LedgerState {
            reservations: Map::new(
                |id: u64| self.reservations.contains_key(id) && !self.expired(id, now_ns),
                |id: u64| self.reservations[id],
            ),
            ..self
        }
    }
}

/// A sum splits into any one reservation and the rest.
pub proof fn lemma_sum_remove(
    m: Map<u64, Reservation>,
    weight: spec_fn(Reservation) -> nat,
    id: u64,
)
    requires
        m.dom().finite(),
        m.contains_key(id),
    ensures
        sum_over(m, weight) == weight(m[id]) + sum_over(m.remove(id), weight),
    decreases m.dom().len(),
{
    let first = m.dom().choose();
    assert(m.dom().contains(first));
    if first != id {
        lemma_sum_remove(m.remove(first), weight, id);
        lemma_sum_remove(m.remove(id), weight, first);
        assert(m.remove(first).remove(id) =~= m.remove(id).remove(first));
    }
}

/// A new reservation adds its own weight and nothing else.
pub proof fn lemma_sum_insert(
    m: Map<u64, Reservation>,
    weight: spec_fn(Reservation) -> nat,
    id: u64,
    r: Reservation,
)
    requires
        m.dom().finite(),
        !m.contains_key(id),
    ensures
        sum_over(m.insert(id, r), weight) == sum_over(m, weight) + weight(r),
{
    let grown = m.insert(id, r);
    lemma_sum_remove(grown, weight, id);
    assert(grown.remove(id) =~= m);
}

/// Fewer reservations never weigh more.
proof fn lemma_sum_submap(
    part: Map<u64, Reservation>,
    m: Map<u64, Reservation>,
    weight: spec_fn(Reservation) -> nat,
)
    requires
        m.dom().finite(),
        part.submap_of(m),
    ensures
        part.dom().finite(),
        sum_over(part, weight) <= sum_over(m, weight),
    decreases m.dom().len(),
{
    assert(part.dom().subset_of(m.dom()));
    vstd::set_lib::lemma_len_subset(part.dom(), m.dom());
    if m.dom().len() > 0 {
        let id = m.dom().choose();
        assert(m.dom().contains(id));
        if part.contains_key(id) {
            lemma_sum_remove(part, weight, id);
            assert(part.remove(id).submap_of(m.remove(id)));
            lemma_sum_submap(part.remove(id), m.remove(id), weight);
        } else {
            assert(part.submap_of(m.remove(id)));
            lemma_sum_submap(part, m.remove(id), weight);
        }
    } else {
        assert(part.dom().len() == 0);
    }
}

/// Reserving keeps a ledger valid: neither the capacity nor a source's cap is ever exceeded.
pub proof fn reserve_keeps_valid(
    s: LedgerState,
    source: Option<Seq<char>>,
    id: u64,
    bytes: u64,
    now_ns: u64,
)
    requires
        s.valid(),
    ensures
        s.after_reserve(source, id, bytes, now_ns).valid(),
        s.after_reserve(source, id, bytes, now_ns).reserved() == s.reserved() + if s.admits(
            source,
            id,
            bytes,
        ) is Ok {
            bytes as nat
        } else {
            0
        },
{
    let t = s.after_reserve(source, id, bytes, now_ns);
    if s.admits(source, id, bytes) is Ok {
        let r = Reservation { bytes, created_ns: now_ns, source };
        lemma_sum_insert(s.reservations, all_bytes(), id, r);
        assert forall|label: Seq<char>| #[trigger] t.outstanding(label) <= t.max_per_source by {
            lemma_sum_insert(s.reservations, bytes_of(label), id, r);
            assert(s.outstanding(label) <= s.max_per_source);
        }
    } else {
        assert forall|label: Seq<char>| #[trigger] t.outstanding(label) <= t.max_per_source by {
            assert(s.outstanding(label) <= s.max_per_source);
        }
    }
}

/// Releasing keeps a ledger valid and gives back exactly the bytes reserved.
pub proof fn release_keeps_valid(s: LedgerState, id: u64)
    requires
        s.valid(),
    ensures
        s.after_release(id).valid(),
        s.reserved() == s.after_release(id).reserved() + if s.reservations.contains_key(id) {
            s.reservations[id].bytes as nat
        } else {
            0
        },
{
    let t = s.after_release(id);
    if s.reservations.contains_key(id) {
        lemma_sum_remove(s.reservations, all_bytes(), id);
    }
    assert forall|label: Seq<char>| #[trigger] t.outstanding(label) <= t.max_per_source by {
        assert(s.outstanding(label) <= s.max_per_source);
        if s.reservations.contains_key(id) {
            lemma_sum_remove(s.reservations, bytes_of(label), id);
        }
    }
}

/// The weights of two parts of some reservations add up.
proof fn lemma_sum_parts(
    one: Map<u64, Reservation>,
    other: Map<u64, Reservation>,
    m: Map<u64, Reservation>,
    weight: spec_fn(Reservation) -> nat,
)
    requires
        m.dom().finite(),
        one.submap_of(m),
        other.submap_of(m),
        forall|id: u64| #[trigger]
            m.contains_key(id) ==> one.contains_key(id) != other.contains_key(id),
    ensures
        sum_over(m, weight) == sum_over(one, weight) + sum_over(other, weight),
    decreases m.dom().len(),
{
    assert(one.dom().subset_of(m.dom()));
    assert(other.dom().subset_of(m.dom()));
    vstd::set_lib::lemma_len_subset(one.dom(), m.dom());
    vstd::set_lib::lemma_len_subset(other.dom(), m.dom());
    if m.dom().len() > 0 {
        let id = m.dom().choose();
        assert(m.dom().contains(id));
        let rest = m.remove(id);
        if one.contains_key(id) {
            lemma_sum_remove(one, weight, id);
            lemma_sum_parts(one.remove(id), other, rest, weight);
        } else {
            lemma_sum_remove(other, weight, id);
            lemma_sum_parts(one, other.remove(id), rest, weight);
        }
    }
}

/// Reclaiming keeps a ledger valid and gives back exactly the bytes of the sessions that have
/// outlived their time.
pub proof fn reclaim_keeps_valid(s: LedgerState, now_ns: u64)
    requires
        s.valid(),
    ensures
        s.after_reclaim(now_ns).valid(),
        s.after_reclaim(now_ns).reserved() + sum_over(s.outlived(now_ns), all_bytes())
            == s.reserved(),
{
    lemma_sum_parts(
        s.after_reclaim(now_ns).reservations,
        s.outlived(now_ns),
        s.reservations,
        all_bytes(),
    );
    let t = s.after_reclaim(now_ns);
    assert(t.reservations.submap_of(s.reservations));
    lemma_sum_submap(t.reservations, s.reservations, all_bytes());
    assert forall|label: Seq<char>| #[trigger] t.outstanding(label) <= t.max_per_source by {
        assert(s.outstanding(label) <= s.max_per_source);
        lemma_sum_submap(t.reservations, s.reservations, bytes_of(label));
    }
}

/// A reservation and its release leave the same reservations as before.
pub proof fn release_undoes_reserve(
    s: LedgerState,
    source: Option<Seq<char>>,
    id: u64,
    bytes: u64,
    now_ns: u64,
)
    requires
        s.valid(),
        s.admits(source, id, bytes) is Ok,
    ensures
        s.after_reserve(source, id, bytes, now_ns).after_release(id).reservations
            == s.reservations,
        s.after_reserve(source, id, bytes, now_ns).after_release(id).reservation_errors
            == s.reservation_errors,
        s.after_reserve(source, id, bytes, now_ns).after_release(id).reserved() == s.reserved(),
{
    let t = s.after_reserve(source, id, bytes, now_ns).after_release(id);
    assert(t.reservations =~= s.reservations);
}

/// A request already holding a reservation cannot take a second one, and asking changes nothing.
pub proof fn duplicate_changes_nothing(
    s: LedgerState,
    source: Option<Seq<char>>,
    id: u64,
    bytes: u64,
    now_ns: u64,
)
    requires
        s.reservations.contains_key(id),
        bytes > 0,
    ensures
        s.admits(source, id, bytes) == Err::<(), AdmitError>(AdmitError::DuplicateRequest),
        s.after_reserve(source, id, bytes, now_ns) == s,
{
}

/// After a migration is resolved exactly one of its two reservations is held, and the
/// fleet total counts the session once.
pub proof fn migration_counts_once(
    s: LedgerState,
    source_id: u64,
    target_id: u64,
    decision: MigrationDecision,
)
    requires
        s.valid(),
        source_id != target_id,
        s.reservations.contains_key(source_id),
        s.reservations.contains_key(target_id),
    ensures
        ({
            let released = if decision == MigrationDecision::Commit {
                source_id
            } else {
                target_id
            };
            let kept = if decision == MigrationDecision::Commit {
                target_id
            } else {
                source_id
            };
            let t = s.after_release(released);
            &&& t.valid()
            &&& t.reservations.contains_key(kept)
            &&& !t.reservations.contains_key(released)
            &&& t.reservations[kept] == s.reservations[kept]
            &&& t.reserved() == s.reserved() - s.reservations[released].bytes
            &&& t.reservation_errors == s.reservation_errors
        }),
{
    let released = if decision == MigrationDecision::Commit {
        source_id
    } else {
        target_id
    };
    release_keeps_valid(s, released);
}

#[derive(Debug)]
struct ReservationEntry {
    bytes: u64,
    created_ns: u64,
    source_label: Option<String>,
}

impl View for ReservationEntry {
    type V = Reservation;

    closed spec fn view(&self) -> Reservation {
        Reservation {
            bytes: self.bytes,
            created_ns: self.created_ns,
            source: match self.source_label {
                Some(l) => Some(l@),
                None => None,
            },
        }
    }
}

#[derive(Debug)]
struct SourceUse {
    label: String,
    bytes: u64,
}

/// Fleet-wide reservation ledger with reclaim of abandoned sessions.
#[derive(Debug)]
pub struct ReservationLedger {
    capacity_bytes: u64,
    max_per_source: u64,
    reserved_bytes: u64,
    admit_rejects: u64,
    reservation_errors: u64,
    reservations: HashMap<u64, ReservationEntry>,
    sources: Vec<SourceUse>,
    recent_sizes: VecDeque<u64>,
}

impl View for ReservationLedger {
    type V = LedgerState;

    closed spec fn view(&self) -> LedgerState {
        LedgerState {
            capacity: self.capacity_bytes,
            max_per_source: self.max_per_source,
            reservations: self.reservations@.map_values(|e: ReservationEntry| e@),
            recent: self.recent_sizes@,
            admit_rejects: self.admit_rejects,
            reservation_errors: self.reservation_errors,
        }
    }
}

/// The per-source totals agree with the reservations: each source that holds bytes is listed once.
spec fn sources_agree(sources: Seq<SourceUse>, m: Map<u64, Reservation>) -> bool {
    &&& forall|i: int, j: int|
        0 <= i < j < sources.len() ==> #[trigger] sources[i].label@ != #[trigger] sources[j].label@
    &&& forall|i: int|
        0 <= i < sources.len() ==> #[trigger] sources[i].bytes > 0 && sources[i].bytes
            == sum_over(m, bytes_of(sources[i].label@))
    &&& forall|label: Seq<char>|
        #![trigger bytes_of(label)]
        sum_over(m, bytes_of(label)) > 0 ==> exists|i: int|
            0 <= i < sources.len() && #[trigger] sources[i].label@ == label
}

impl ReservationLedger {
    /// The ledger's caches agree with its reservations, and it is within its limits.
    pub closed spec fn wf(self) -> bool {
        &&& self@.valid()
        &&& self.reserved_bytes == self@.reserved()
        &&& sources_agree(self.sources@, self@.reservations)
    }

    /// An empty ledger over `capacity_bytes`.
    pub fn new(capacity_bytes: u64) -> (r: ReservationLedger)
        ensures
            r.wf(),
            r@ == fresh_ledger(capacity_bytes),
    {
        let product: u128 = capacity_bytes as u128 * KV_MAX_OUTSTANDING_PER_SOURCE_PERMILLE as u128;
        let share: u64 = ((product + 999) / 1000) as u64;
        let max_per_source: u64 = if share == 0 {
            1
        } else {
            share
        };
        let r = ReservationLedger {
            capacity_bytes,
            max_per_source,
            reserved_bytes: 0,
            admit_rejects: 0,
            reservation_errors: 0,
            reservations: HashMap::new(),
            sources: Vec::new(),
            recent_sizes: VecDeque::with_capacity(RECENT_SAMPLES),
        };
        assert(r@.reservations =~= Map::<u64, Reservation>::empty());
        assert(r@.recent =~= Seq::<u64>::empty());
        r
    }

    /// Every ledger is within its capacity and its quotas.
    pub proof fn wf_is_valid(self)
        requires
            self.wf(),
        ensures
            self@.valid(),
            self@.reserved() <= self@.capacity,
            self@.max_per_source == source_quota(self@.capacity),
    {
    }

    /// Bytes the decode pool holds in all.
    pub fn capacity_bytes(&self) -> (r: u64)
        ensures
            r == self@.capacity,
    {
        self.capacity_bytes
    }

    /// Bytes reserved over the whole fleet.
    pub fn fleet_reserved(&self) -> (r: u64)
        requires
            self.wf(),
        ensures
            r == self@.reserved(),
    {
        self.reserved_bytes
    }

    /// The p90 of recently admitted sizes.
    pub fn p90_increment(&self) -> (r: u64)
        ensures
            r == p90_of(self@.recent),
    {
        let mut recent: Vec<u64> = Vec::new();
        let n: usize = self.recent_sizes.len();
        for i in 0..n
            invariant
                n == self.recent_sizes@.len(),
                recent@ =~= self.recent_sizes@.take(i as int),
        {
            recent.push(self.recent_sizes[i]);
        }
        assert(recent@ =~= self.recent_sizes@);
        percentile90(recent)
    }

    /// The memory-pressure barrier: live reservations plus one typical increment.
    pub fn phi_barrier(&self) -> (r: BarrierFactor)
        requires
            self.wf(),
        ensures
            r.factor() == self@.phi(),
    {
        phi_barrier_marginal(self.reserved_bytes, self.p90_increment(), self.capacity_bytes)
    }

    /// The ledger's counters.
    pub fn metrics(&self) -> (r: LedgerMetrics)
        requires
            self.wf(),
        ensures
            r.kv_bytes_reserved == self@.reserved(),
            r.kv_admit_rejects_total == self@.admit_rejects,
            r.kv_reservation_error == self@.reservation_errors,
    {
        LedgerMetrics {
            kv_bytes_reserved: self.reserved_bytes,
            kv_admit_rejects_total: self.admit_rejects,
            kv_reservation_error: self.reservation_errors,
        }
    }

    /// Reserves `bytes` for a request against the fleet-wide total.
    pub fn try_reserve(&mut self, request_id: u64, bytes: u64, now_ns: u64) -> (r: Result<
        ReservationGuard,
        AdmitError,
    >)
        requires
            old(self).wf(),
        ensures
            final(self).wf(),
            final(self)@ == old(self)@.after_reserve(None, request_id, bytes, now_ns),
            match r {
                Ok(g) => g.id() == request_id && old(self)@.admits(None, request_id, bytes) is Ok,
                Err(e) => old(self)@.admits(None, request_id, bytes) == Err::<(), AdmitError>(e),
            },
    {
        self.try_reserve_from(None, request_id, bytes, now_ns)
    }

    fn find_source(&self, label: &str) -> (r: Option<usize>)
        ensures
            match r {
                Some(i) => i < self.sources@.len() && self.sources@[i as int].label@ == label@,
                None => forall|i: int|
                    0 <= i < self.sources@.len() ==> (#[trigger] self.sources@[i]).label@
                        != label@,
            },
    {
        let wanted: String = label.to_owned();
        let mut i: usize = 0;
        while i < self.sources.len()
            invariant
                wanted@ == label@,
                i <= self.sources@.len(),
                forall|j: int| 0 <= j < i ==> (#[trigger] self.sources@[j]).label@ != label@,
            decreases self.sources@.len() - i,
        {
            if self.sources[i].label == wanted {
                return Some(i);
            }
            i = i + 1;
        }
        None
    }

    /// Reserves `bytes` for a request, and holds one prefill source to its share of the ledger.
    pub fn try_reserve_from(
        &mut self,
        source_label: Option<&str>,
        request_id: u64,
        bytes: u64,
        now_ns: u64,
    ) -> (r: Result<ReservationGuard, AdmitError>)
        requires
            old(self).wf(),
        ensures
            final(self).wf(),
            final(self)@ == old(self)@.after_reserve(
                label_view(source_label),
                request_id,
                bytes,
                now_ns,
            ),
            match r {
                Ok(g) => g.id() == request_id && old(self)@.admits(
                    label_view(source_label),
                    request_id,
                    bytes,
                ) is Ok,
                Err(e) => old(self)@.admits(label_view(source_label), request_id, bytes) == Err::<
                    (),
                    AdmitError,
                >(e),
            },
    {
        let ghost s = self@;
        let ghost source = label_view(source_label);
        proof {
            reserve_keeps_valid(s, source, request_id, bytes, now_ns);
        }
        if bytes == 0 {
            self.admit_rejects = self.admit_rejects.wrapping_add(1);
            return Err(AdmitError::OverCapacity);
        }
        if self.reservations.contains_key(&request_id) {
            return Err(AdmitError::DuplicateRequest);
        }
        if bytes > self.capacity_bytes - self.reserved_bytes {
            self.admit_rejects = self.admit_rejects.wrapping_add(1);
            return Err(AdmitError::OverCapacity);
        }
        let mut slot: Option<usize> = None;
        if let Some(label) = source_label {
            slot = self.find_source(label);
            let outstanding: u64 = match slot {
                Some(i) => self.sources[i].bytes,
                None => 0,
            };
            assert(outstanding == s.outstanding(label@));
            if bytes > self.max_per_source - outstanding {
                self.admit_rejects = self.admit_rejects.wrapping_add(1);
                return Err(AdmitError::OverCapacity);
            }
        }
        let ghost before = self.sources@;
        if let Some(label) = source_label {
            match slot {
                Some(i) => {
                    let held: u64 = self.sources[i].bytes;
                    self.sources[i].bytes = held + bytes;
                },
                None => {
                    self.sources.push(SourceUse { label: label.to_owned(), bytes });
                },
            }
        }
        let entry = ReservationEntry {
            bytes,
            created_ns: now_ns,
            source_label: match source_label {
                Some(l) => Some(l.to_owned()),
                None => None,
            },
        };
        let ghost r = entry@;
        self.reservations.insert(request_id, entry);
        self.reserved_bytes = self.reserved_bytes + bytes;
        if self.recent_sizes.len() >= RECENT_SAMPLES {
            self.recent_sizes.pop_front();
        }
        self.recent_sizes.push_back(bytes);
        proof {
            let t = s.after_reserve(source, request_id, bytes, now_ns);
            assert(self@.reservations =~= t.reservations);
            assert(self@.recent =~= t.recent);
            assert(self@ == t);
            assert forall|label: Seq<char>| #[trigger]
                t.outstanding(label) == s.outstanding(label) + bytes_of(label)(r) by {
                lemma_sum_insert(s.reservations, bytes_of(label), request_id, r);
            }
            let after = self.sources@;
            assert forall|i: int| 0 <= i < after.len() implies #[trigger] after[i].bytes > 0
                && after[i].bytes == sum_over(t.reservations, bytes_of(after[i].label@)) by {
                lemma_sum_insert(s.reservations, bytes_of(after[i].label@), request_id, r);
                if i < before.len() {
                    assert(before[i].label@ == after[i].label@);
                    assert(before[i].bytes == s.outstanding(before[i].label@));
                }
            }
            assert forall|i: int, j: int| 0 <= i < j < after.len() implies
                #[trigger] after[i].label@ != #[trigger] after[j].label@ by {
                assert(before[i].label@ == after[i].label@);
                if j < before.len() {
                    assert(before[j].label@ == after[j].label@);
                }
            }
            assert forall|label: Seq<char>|
                #![trigger bytes_of(label)]
                t.outstanding(label) > 0 implies exists|i: int|
                0 <= i < after.len() && #[trigger] after[i].label@ == label by {
                if s.outstanding(label) > 0 {
                    let i = choose|i: int|
                        0 <= i < before.len() && #[trigger] before[i].label@ == label;
                    assert(after[i].label@ == label);
                } else {
                    match slot {
                        Some(i) => {
                            assert(after[i as int].label@ == label);
                        },
                        None => {
                            assert(after[before.len() as int].label@ == label);
                        },
                    }
                }
            }
        }
        Ok(ReservationGuard { request_id })
    }

    /// Reserves the footprint of a prompt.
    pub fn reserve_for_prompt(
        &mut self,
        request_id: u64,
        prompt_tokens: u64,
        bytes_per_token: u64,
        now_ns: u64,
    ) -> (r: Result<ReservationGuard, AdmitError>)
        requires
            old(self).wf(),
            footprint_countable(prompt_tokens as nat, bytes_per_token as nat),
        ensures
            final(self).wf(),
            ({
                let bytes = reserved_bytes(prompt_tokens as nat, bytes_per_token as nat) as u64;
                &&& final(self)@ == old(self)@.after_reserve(None, request_id, bytes, now_ns)
                &&& match r {
                    Ok(g) => g.id() == request_id && old(self)@.admits(
                        None,
                        request_id,
                        bytes,
                    ) is Ok,
                    Err(e) => old(self)@.admits(None, request_id, bytes) == Err::<(), AdmitError>(
                        e,
                    ),
                }
            }),
    {
        let bytes: u64 = kv_breakdown(prompt_tokens, bytes_per_token).kv_reserved;
        self.try_reserve(request_id, bytes, now_ns)
    }

    /// Gives a reservation back; says whether there was one.
    fn release_inner(&mut self, request_id: u64) -> (r: bool)
        requires
            old(self).wf(),
        ensures
            final(self).wf(),
            final(self)@ == old(self)@.after_release(request_id),
            r == old(self)@.reservations.contains_key(request_id),
    {
        let ghost s = self@;
        let ghost t = s.after_release(request_id);
        proof {
            release_keeps_valid(s, request_id);
        }
        match self.reservations.remove(&request_id) {
            Some(entry) => {
                let ghost before = self.sources@;
                assert(s.reservations[request_id] == entry@);
                assert(self@.reservations =~= t.reservations);
                assert forall|label: Seq<char>| #[trigger]
                    s.outstanding(label) == t.outstanding(label) + bytes_of(label)(entry@) by {
                    lemma_sum_remove(s.reservations, bytes_of(label), request_id);
                }
                self.reserved_bytes = self.reserved_bytes - entry.bytes;
                if let Some(label) = &entry.source_label {
                    assert(s.outstanding(label@) > 0);
                    match self.find_source(label.as_str()) {
                        Some(i) => {
                            let left: u64 = self.sources[i].bytes - entry.bytes;
                            if left == 0 {
                                self.sources.remove(i);
                            } else {
                                self.sources[i].bytes = left;
                            }
                            proof {
                                let after = self.sources@;
                                assert forall|j: int| 0 <= j < after.len() implies
                                    #[trigger] after[j].bytes > 0 && after[j].bytes == sum_over(
                                    t.reservations,
                                    bytes_of(after[j].label@),
                                ) by {
                                    let k = if left == 0 && j >= i {
                                        j + 1
                                    } else {
                                        j
                                    };
                                    assert(before[k].label@ == after[j].label@);
                                    assert(before[k].bytes == s.outstanding(before[k].label@));
                                    if k != i {
                                        assert(before[i as int].label@ == label@);
                                        assert(before[k].label@ != label@);
                                    }
                                }
                                assert forall|j: int, l: int|
                                    0 <= j < l < after.len() implies #[trigger] after[j].label@
                                    != #[trigger] after[l].label@ by {
                                    let k = if left == 0 && j >= i {
                                        j + 1
                                    } else {
                                        j
                                    };
                                    let n = if left == 0 && l >= i {
                                        l + 1
                                    } else {
                                        l
                                    };
                                    assert(before[k].label@ != before[n].label@);
                                }
                                assert forall|other: Seq<char>|
                                    #![trigger bytes_of(other)]
                                    t.outstanding(other) > 0 implies exists|j: int|
                                    0 <= j < after.len() && #[trigger] after[j].label@
                                        == other by {
                                    assert(s.outstanding(other) > 0);
                                    let j = choose|j: int|
                                        0 <= j < before.len() && #[trigger] before[j].label@
                                            == other;
                                    if left == 0 {
                                        assert(j != i);
                                        if j < i {
                                            assert(after[j].label@ == other);
                                        } else {
                                            assert(after[j - 1].label@ == other);
                                        }
                                    } else {
                                        assert(after[j].label@ == other);
                                    }
                                }
                            }
                        },
                        None => {
                            assert(sum_over(s.reservations, bytes_of(label@)) > 0);
                        },
                    }
                }
                proof {
                    assert(self@ == t);
                    if entry.source_label is None {
                        assert forall|i: int|
                            0 <= i < self.sources@.len() implies #[trigger] self.sources@[i].bytes
                            > 0 && self.sources@[i].bytes == sum_over(
                            t.reservations,
                            bytes_of(self.sources@[i].label@),
                        ) by {
                            assert(before[i].bytes == s.outstanding(before[i].label@));
                        }
                    }
                    assert forall|label: Seq<char>|
                        #![trigger bytes_of(label)]
                        t.outstanding(label) > 0 implies exists|i: int|
                        0 <= i < self.sources@.len() && #[trigger] self.sources@[i].label@
                            == label by {
                        assert(s.outstanding(label) > 0);
                    }
                }
                true
            },
            None => {
                self.reservation_errors = self.reservation_errors.wrapping_add(1);
                assert(self@.reservations =~= s.reservations);
                false
            },
        }
    }

    /// Gives a reservation back on session end or abort.
    pub fn release(&mut self, request_id: u64)
        requires
            old(self).wf(),
        ensures
            final(self).wf(),
            final(self)@ == old(self)@.after_release(request_id),
    {
        let _released = self.release_inner(request_id);
    }

    /// Drops the reservations of abandoned sessions and says how many there were.
    pub fn reclaim_expired(&mut self, now_ns: u64) -> (n: usize)
        requires
            old(self).wf(),
        ensures
            final(self).wf(),
            final(self)@ == old(self)@.after_reclaim(now_ns),
            n == old(self)@.reservations.dom().len() - final(self)@.reservations.dom().len(),
    {
        let ghost s = self@;
        let mut expired: Vec<u64> = Vec::new();
        for id in it: self.reservations.keys()
            invariant
                self@ == s,
                self.wf(),
                it.seq().unref().to_set() == s.reservations.dom(),
                it.seq().no_duplicates(),
                forall|j: int|
                    #![trigger expired@[j]]
                    0 <= j < expired@.len() ==> s.expired(expired@[j], now_ns) && it.seq().take(
                        it.index() as int,
                    ).contains(&expired@[j]),
                forall|j: int|
                    #![trigger it.seq()[j]]
                    0 <= j < it.index() && s.expired(*it.seq()[j], now_ns) ==> expired@.contains(
                        *it.seq()[j],
                    ),
                expired@.no_duplicates(),
        {
            let ghost at = it.index();
            let ghost before = expired@;
            assert(it.seq()[at as int] == id);
            assert(it.seq().unref()[at as int] == *id);
            assert(s.reservations.dom().contains(*id));
            assert(it.seq().take(at + 1) =~= it.seq().take(at as int).push(id));
            if let Some(entry) = self.reservations.get(id) {
                assert(s.reservations[*id] == entry@);
                if now_ns >= entry.created_ns && now_ns - entry.created_ns
                    >= KV_ABANDONED_SESSION_TTL_S * NANOS_PER_SEC {
                    assert(!expired@.contains(*id)) by {
                        if expired@.contains(*id) {
                            let j = choose|j: int| 0 <= j < expired@.len() && expired@[j] == *id;
                            let k = choose|k: int|
                                0 <= k < at && it.seq().take(at as int)[k] == &expired@[j];
                            assert(it.seq()[k] == it.seq()[at as int]);
                        }
                    }
                    expired.push(*id);
                    assert(expired@[before.len() as int] == *id);
                }
            }
            assert forall|j: int|
                #![trigger expired@[j]]
                0 <= j < expired@.len() implies s.expired(expired@[j], now_ns) && it.seq().take(
                at + 1,
            ).contains(&expired@[j]) by {
                if j < before.len() {
                    assert(before[j] == expired@[j]);
                    let k = choose|k: int|
                        0 <= k < at && it.seq().take(at as int)[k] == &expired@[j];
                    assert(it.seq().take(at + 1)[k] == &expired@[j]);
                } else {
                    assert(it.seq().take(at + 1)[at as int] == &expired@[j]);
                }
            }
            assert forall|j: int|
                #![trigger it.seq()[j]]
                0 <= j < at + 1 && s.expired(*it.seq()[j], now_ns) implies expired@.contains(
                *it.seq()[j],
            ) by {
                if j < at {
                    let k = choose|k: int| 0 <= k < before.len() && before[k] == *it.seq()[j];
                    assert(expired@[k] == *it.seq()[j]);
                }
            }
        }
        assert forall|id: u64| s.expired(id, now_ns) implies expired@.contains(id) by {
            assert(s.reservations.dom().contains(id));
        }
        let n: usize = expired.len();
        let mut i: usize = 0;
        while i < n
            invariant
                i <= n,
                n == expired@.len(),
                self.wf(),
                expired@.no_duplicates(),
                forall|j: int|
                    0 <= j < n ==> s.reservations.contains_key(#[trigger] expired@[j]),
                self@ == (LedgerState { reservations: self@.reservations, ..s }),
                self@.reservations == s.reservations.remove_keys(expired@.take(i as int).to_set()),
                self@.reservations.dom().len() == s.reservations.dom().len() - i,
            decreases n - i,
        {
            let ghost gone = expired@.take(i as int);
            assert(!gone.contains(expired@[i as int]));
            assert(self@.reservations.contains_key(expired@[i as int]));
            self.release(expired[i]);
            assert(expired@.take(i + 1) =~= gone.push(expired@[i as int]));
            assert forall|id: u64|
                expired@.take(i + 1).contains(id) <==> gone.contains(id) || id
                    == expired@[i as int] by {
                if gone.contains(id) {
                    let k = choose|k: int| 0 <= k < gone.len() && gone[k] == id;
                    assert(expired@.take(i + 1)[k] == id);
                }
                if id == expired@[i as int] {
                    assert(expired@.take(i + 1)[i as int] == id);
                }
            }
            assert(self@.reservations =~= s.reservations.remove_keys(
                expired@.take(i + 1).to_set(),
            ));
            i = i + 1;
        }
        assert(expired@.take(n as int) =~= expired@);
        assert(self@.reservations =~= s.after_reclaim(now_ns).reservations);
        n
    }
}

/// A held reservation. It is given back by [`ReservationGuard::release`], or reclaimed when its
/// session has been abandoned; letting the guard go does neither.
#[must_use]
#[derive(Debug, PartialEq, Eq)]
pub struct ReservationGuard {
    request_id: u64,
}

impl ReservationGuard {
    /// The request the reservation belongs to.
    pub closed spec fn id(self) -> u64 {
        self.request_id
    }

    /// The request the reservation belongs to.
    pub fn request_id(&self) -> (r: u64)
        ensures
            r == self.id(),
    {
        self.request_id
    }

    /// Gives the reservation back to its ledger.
    pub fn release(self, ledger: &mut ReservationLedger)
        requires
            old(ledger).wf(),
        ensures
            final(ledger).wf(),
            final(ledger)@ == old(ledger)@.after_release(self.id()),
    {
        ledger.release(self.request_id);
    }

    /// Resolves a live migration from this reservation to `target`: on `Commit` the target
    /// survives, on `Abort` this one does. The other is released.
    #[must_use]
    pub fn resolve_migration(
        self,
        target: ReservationGuard,
        decision: MigrationDecision,
        ledger: &mut ReservationLedger,
    ) -> (r: ReservationGuard)
        requires
            old(ledger).wf(),
        ensures
            final(ledger).wf(),
            match decision {
                MigrationDecision::Commit => r == target && final(ledger)@
                    == old(ledger)@.after_release(self.id()),
                MigrationDecision::Abort => r == self && final(ledger)@
                    == old(ledger)@.after_release(target.id()),
            },
    {
        match decision {
            MigrationDecision::Commit => {
                self.release(ledger);
                target
            },
            MigrationDecision::Abort => {
                target.release(ledger);
                self
            },
        }
    }
}

} // verus!
