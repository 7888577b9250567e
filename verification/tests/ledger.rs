use demiurge::kv::{
    checked_kv_breakdown, fleet_marginal_bytes, fleet_marginal_bytes_wrong, kv_breakdown,
    percentile90,
};
use demiurge::ledger::{AdmitError, ReservationLedger};
use demiurge::migration::MigrationDecision;
use demiurge::predictor::LengthPredictor;

#[test]
fn reservation_released_on_session_end() {
    let mut ledger = ReservationLedger::new(10_000);
    {
        let g = ledger.try_reserve(1, 500, 0).expect("reserve");
        assert_eq!(ledger.fleet_reserved(), 500);
        g.release(&mut ledger);
    }
    assert_eq!(ledger.fleet_reserved(), 0);
}

#[test]
fn handoff_burst_no_oom() {
    let per_req = kv_breakdown(512, 128).kv_reserved;
    let capacity = per_req * 10;
    let mut ledger = ReservationLedger::new(capacity);
    let mut guards = Vec::new();
    for id in 0..10 {
        guards.push(ledger.try_reserve(id, per_req, 0).expect("admit"));
    }
    assert_eq!(ledger.fleet_reserved(), capacity);
    assert!(ledger.try_reserve(99, per_req, 0).is_err());
    assert_eq!(ledger.fleet_reserved(), capacity);
    for g in guards {
        g.release(&mut ledger);
    }
    assert_eq!(ledger.fleet_reserved(), 0);
}

#[test]
fn per_source_outstanding_quota_sheds() {
    // capacity 1000: 25% per source is 250.
    let mut ledger = ReservationLedger::new(1000);
    let g1 = ledger.try_reserve_from(Some("pf-a"), 1, 200, 0).expect("first");
    assert!(
        ledger.try_reserve_from(Some("pf-a"), 2, 100, 0).is_err(),
        "same source over quota"
    );
    let g2 = ledger.try_reserve_from(Some("pf-b"), 3, 200, 0).expect("other source ok");
    g1.release(&mut ledger);
    g2.release(&mut ledger);
    assert_eq!(ledger.fleet_reserved(), 0);
}

#[test]
fn migration_commit_transfers_reservation() {
    let mut ledger = ReservationLedger::new(10_000);
    let source = ledger.try_reserve(1, 500, 0).expect("source");
    let target = ledger.try_reserve(2, 500, 0).expect("target");
    assert_eq!(ledger.fleet_reserved(), 1_000);

    let survivor = source.resolve_migration(target, MigrationDecision::Commit, &mut ledger);
    assert_eq!(survivor.request_id(), 2);
    assert_eq!(ledger.fleet_reserved(), 500);
    survivor.release(&mut ledger);
    assert_eq!(ledger.fleet_reserved(), 0);
}

#[test]
fn migration_abort_restores_source_reservation() {
    let mut ledger = ReservationLedger::new(10_000);
    let source = ledger.try_reserve(1, 500, 0).expect("source");
    let target = ledger.try_reserve(2, 500, 0).expect("target");
    assert_eq!(ledger.fleet_reserved(), 1_000);

    let survivor = source.resolve_migration(target, MigrationDecision::Abort, &mut ledger);
    assert_eq!(survivor.request_id(), 1);
    assert_eq!(ledger.fleet_reserved(), 500);
    survivor.release(&mut ledger);
    assert_eq!(ledger.fleet_reserved(), 0);
}

#[test]
fn ledger_consistent_after_commit_and_abort() {
    let mut ledger = ReservationLedger::new(10_000);

    let s1 = ledger.try_reserve(1, 400, 0).expect("s1");
    let t1 = ledger.try_reserve(2, 400, 0).expect("t1");
    let g1 = s1.resolve_migration(t1, MigrationDecision::Commit, &mut ledger);

    let s2 = ledger.try_reserve(3, 600, 0).expect("s2");
    let t2 = ledger.try_reserve(4, 600, 0).expect("t2");
    let g2 = s2.resolve_migration(t2, MigrationDecision::Abort, &mut ledger);

    assert_eq!(ledger.fleet_reserved(), 1_000);
    g1.release(&mut ledger);
    g2.release(&mut ledger);
    assert_eq!(ledger.fleet_reserved(), 0);
    assert_eq!(ledger.metrics().kv_reservation_error, 0);
}

#[test]
fn predictor_percentiles_ordered() {
    let mut p = LengthPredictor::default();
    for i in 1..=100 {
        p.record(i * 10);
    }
    assert!(p.p50() <= p.p90());
    assert!(p.p90() <= p.p99());
    assert_eq!((p.p50(), p.p90(), p.p99()), (510, 910, 1000));
}

#[test]
fn predictor_forgets_old_prompts() {
    let mut p = LengthPredictor::default();
    assert_eq!(p.p90(), 0);
    for _ in 0..600 {
        p.record(10);
    }
    for _ in 0..512 {
        p.record(1000);
    }
    assert_eq!(p.p50(), 1000);
    assert_eq!(p.reserve_bytes_p90(128), kv_breakdown(1000, 128).kv_reserved);
}

#[test]
fn kv_reserved_includes_overhead() {
    let b = kv_breakdown(100, 128);
    assert_eq!(b.kv_tokens, 256);
    assert_eq!(b.kv_payload, 256 * 128);
    assert!(b.kv_metadata > 0);
    assert!(b.kv_fragment > 0);
    assert_eq!(b.kv_reserved, b.kv_payload + b.kv_metadata + b.kv_fragment);
    assert!(b.kv_reserved > b.kv_payload);
    assert_eq!((b.kv_metadata, b.kv_fragment), (1639, 3277));
}

#[test]
fn footprint_beyond_64_bits_is_none() {
    assert!(checked_kv_breakdown(u64::MAX, 1).is_none());
    assert!(checked_kv_breakdown(1, u64::MAX).is_none());
    assert_eq!(checked_kv_breakdown(0, 128).map(|b| b.kv_reserved), Some(0));
    assert_eq!(checked_kv_breakdown(256, 1).map(|b| b.kv_tokens), Some(256));
    assert_eq!(checked_kv_breakdown(257, 1).map(|b| b.kv_tokens), Some(512));
}

#[test]
fn percentile90_takes_the_nearest_rank() {
    assert_eq!(percentile90(vec![]), 0);
    assert_eq!(percentile90(vec![7]), 7);
    assert_eq!(percentile90((1..=10).rev().collect()), 9);
    assert_eq!(percentile90((1..=11).collect()), 10);
}

#[test]
fn marginal_counts_one_increment() {
    assert_eq!(fleet_marginal_bytes(500, 100), 600);
    assert_eq!(fleet_marginal_bytes(u64::MAX, 1), u64::MAX);
    assert_eq!(fleet_marginal_bytes_wrong(500, 100, 10), 1500);
    assert_eq!(fleet_marginal_bytes_wrong(1, u64::MAX, 2), u64::MAX);
}

#[test]
fn every_refusal_has_its_reason() {
    let mut ledger = ReservationLedger::new(1000);
    assert_eq!(ledger.try_reserve(1, 0, 0).err(), Some(AdmitError::OverCapacity));
    let g = ledger.try_reserve(1, 1000, 0).expect("all of it");
    assert_eq!(ledger.try_reserve(1, 1, 0).err(), Some(AdmitError::DuplicateRequest));
    assert_eq!(ledger.try_reserve(2, 1, 0).err(), Some(AdmitError::OverCapacity));
    let m = ledger.metrics();
    assert_eq!((m.kv_bytes_reserved, m.kv_admit_rejects_total), (1000, 2));
    g.release(&mut ledger);
    ledger.release(1);
    assert_eq!(ledger.metrics().kv_reservation_error, 1);
    assert_eq!(AdmitError::OverCapacity.message(), "decode pool KV capacity exceeded");
    assert_eq!(AdmitError::DuplicateRequest.message(), "request already reserved");
}

#[test]
fn abandoned_sessions_are_reclaimed() {
    let second = 1_000_000_000u64;
    let mut ledger = ReservationLedger::new(1000);
    let _old = ledger.try_reserve_from(Some("pf"), 1, 100, 0).expect("old");
    let _young = ledger.try_reserve_from(Some("pf"), 2, 50, 100 * second).expect("young");
    assert_eq!(ledger.reclaim_expired(599 * second), 0);
    assert_eq!(ledger.reclaim_expired(600 * second), 1);
    assert_eq!(ledger.fleet_reserved(), 50);
    // The source has its share back.
    assert!(ledger.try_reserve_from(Some("pf"), 3, 200, 600 * second).is_ok());
    assert_eq!(ledger.reclaim_expired(700 * second), 1);
    assert_eq!(ledger.fleet_reserved(), 200);
}

#[test]
fn p90_increment_follows_recent_sizes() {
    let mut ledger = ReservationLedger::new(1_000_000);
    assert_eq!(ledger.p90_increment(), 0);
    for id in 0..300u64 {
        let g = ledger.try_reserve(id, id + 1, 0).expect("room");
        g.release(&mut ledger);
    }
    // The last 256 sizes are 45..=300; the 231st of them is 275.
    assert_eq!(ledger.p90_increment(), 275);
    assert_eq!(ledger.capacity_bytes(), 1_000_000);
}

#[test]
fn reserve_for_prompt_takes_the_footprint() {
    let mut ledger = ReservationLedger::new(1_000_000);
    let g = ledger.reserve_for_prompt(9, 100, 128, 0).expect("room");
    assert_eq!(ledger.fleet_reserved(), kv_breakdown(100, 128).kv_reserved);
    g.release(&mut ledger);
    assert_eq!(ledger.fleet_reserved(), 0);
}

#[test]
fn reservation_ledger_invariants_report() {
    let mut state: u64 = 1;
    for _ in 0..200 {
        state = state.wrapping_mul(6364136223846793005).wrapping_add(1442695040888963407);
        let capacity = 1024 + (state >> 40) % 998_976;
        let mut ledger = ReservationLedger::new(capacity);
        for id in 0..32u64 {
            state = state.wrapping_mul(6364136223846793005).wrapping_add(1442695040888963407);
            let bytes = 1 + (state >> 45) % 8191;
            match ledger.try_reserve(id, bytes, 0) {
                Ok(guard) => {
                    assert!(ledger.fleet_reserved() <= capacity);
                    assert_eq!(ledger.fleet_reserved(), bytes);
                    guard.release(&mut ledger);
                }
                Err(_) => assert!(bytes > capacity),
            }
        }
        assert_eq!(ledger.fleet_reserved(), 0);
        ledger.release(999);
        assert_eq!(ledger.fleet_reserved(), 0);
    }
}

#[test]
fn longer_prompts_never_reserve_less() {
    let mut last = 0;
    for tokens in 0..3000 {
        let bytes = kv_breakdown(tokens, 128).kv_reserved;
        assert!(bytes >= last);
        last = bytes;
    }
}
