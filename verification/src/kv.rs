//! KV footprint of a prompt and fleet-wide memory pressure.

use vstd::prelude::*;
use crate::params::{
    CACHE_BLOCK_TOKENS, KV_FRAGMENTATION_SLACK_PERMILLE, KV_METADATA_OVERHEAD_PERMILLE,
};
use crate::stats::{ascending, ceil_ratio, sorted};

verus! {

/// Block-aligned KV footprint of one request.
#[derive(Debug, Clone, Copy, PartialEq, Eq, Structural)]
pub struct KvBreakdown {
    pub prompt_tokens: u64,
    pub kv_tokens: u64,
    pub kv_payload: u64,
    pub kv_metadata: u64,
    pub kv_fragment: u64,
    pub kv_reserved: u64,
}

/// Prompt tokens rounded up to whole cache blocks.
pub open spec fn block_tokens(prompt_tokens: nat) -> nat {
    ((prompt_tokens + CACHE_BLOCK_TOKENS - 1) / CACHE_BLOCK_TOKENS as int * CACHE_BLOCK_TOKENS) as nat
}

/// `a * b`, held at the largest 64-bit value.
pub open spec fn saturating_product(a: nat, b: nat) -> nat {
    if a * b > u64::MAX {
        u64::MAX as nat
    } else {
        a * b
    }
}

/// Payload bytes: whole blocks at `bytes_per_token` each.
pub open spec fn payload_bytes(prompt_tokens: nat, bytes_per_token: nat) -> nat {
    saturating_product(block_tokens(prompt_tokens), bytes_per_token)
}

/// Payload, metadata and fragmentation together.
pub open spec fn reserved_bytes(prompt_tokens: nat, bytes_per_token: nat) -> nat {
    let payload = payload_bytes(prompt_tokens, bytes_per_token);
    payload + ceil_ratio(payload, KV_METADATA_OVERHEAD_PERMILLE as nat, 1000) + ceil_ratio(
        payload,
        KV_FRAGMENTATION_SLACK_PERMILLE as nat,
        1000,
    )
}

/// Whether the footprint of such a prompt can be counted in 64 bits.
pub open spec fn footprint_countable(prompt_tokens: nat, bytes_per_token: nat) -> bool {
    &&& block_tokens(prompt_tokens) <= u64::MAX
    &&& reserved_bytes(prompt_tokens, bytes_per_token) <= u64::MAX
}

/// Thousandths of `payload`, rounded up.
fn permille_ceil(payload: u64, permille: u64) -> (r: u128)
    ensures
        r == ceil_ratio(payload as nat, permille as nat, 1000),
        r <= u64::MAX * u64::MAX,
{
    assert(payload as int * permille as int <= u64::MAX * u64::MAX) by (nonlinear_arith)
        requires
            0 <= payload <= u64::MAX,
            0 <= permille <= u64::MAX,
    ;
    let product: u128 = payload as u128 * permille as u128;
    let r: u128 = product / 1000 + if product % 1000 == 0 { 0u128 } else { 1u128 };
    assert(r == (product + 999) / 1000);
    r
}

/// Saturating 64-bit product.
pub fn saturating_mul_u64(a: u64, b: u64) -> (r: u64)
    ensures
        r == saturating_product(a as nat, b as nat),
{
    assert(a as int * b as int <= u64::MAX * u64::MAX) by (nonlinear_arith)
        requires
            0 <= a <= u64::MAX,
            0 <= b <= u64::MAX,
    ;
    let product: u128 = a as u128 * b as u128;
    if product > u64::MAX as u128 {
        u64::MAX
    } else {
        product as u64
    }
}

/// The footprint of a prompt, or `None` where it cannot be counted in 64 bits.
pub fn checked_kv_breakdown(prompt_tokens: u64, bytes_per_token: u64) -> (r: Option<KvBreakdown>)
    ensures
        r is Some <==> footprint_countable(prompt_tokens as nat, bytes_per_token as nat),
        r matches Some(b) ==> {
            &&& b.prompt_tokens == prompt_tokens
            &&& b.kv_tokens == block_tokens(prompt_tokens as nat)
            &&& b.kv_payload == payload_bytes(prompt_tokens as nat, bytes_per_token as nat)
            &&& b.kv_metadata == ceil_ratio(
                b.kv_payload as nat,
                KV_METADATA_OVERHEAD_PERMILLE as nat,
                1000,
            )
            &&& b.kv_fragment == ceil_ratio(
                b.kv_payload as nat,
                KV_FRAGMENTATION_SLACK_PERMILLE as nat,
                1000,
            )
            &&& b.kv_reserved == reserved_bytes(prompt_tokens as nat, bytes_per_token as nat)
        },
{
    let blocks: u64 = prompt_tokens / CACHE_BLOCK_TOKENS + if prompt_tokens % CACHE_BLOCK_TOKENS
        == 0 {
        0
    } else {
        1
    };
    assert(blocks == (prompt_tokens + CACHE_BLOCK_TOKENS - 1) / CACHE_BLOCK_TOKENS as int);
    if blocks > u64::MAX / CACHE_BLOCK_TOKENS {
        return None;
    }
    let kv_tokens: u64 = blocks * CACHE_BLOCK_TOKENS;
    let kv_payload: u64 = saturating_mul_u64(kv_tokens, bytes_per_token);
    let metadata: u128 = permille_ceil(kv_payload, KV_METADATA_OVERHEAD_PERMILLE);
    let fragment: u128 = permille_ceil(kv_payload, KV_FRAGMENTATION_SLACK_PERMILLE);
    if metadata > u64::MAX as u128 || fragment > u64::MAX as u128 {
        return None;
    }
    let reserved: u128 = kv_payload as u128 + metadata + fragment;
    if reserved > u64::MAX as u128 {
        return None;
    }
    Some(
        KvBreakdown {
            prompt_tokens,
            kv_tokens,
            kv_payload,
            kv_metadata: metadata as u64,
            kv_fragment: fragment as u64,
            kv_reserved: reserved as u64,
        },
    )
}

/// Overhead-aware reservation for a prompt:
///
/// ```text
/// kv_tokens   = ceil(prompt / block) * block
/// kv_payload  = kv_tokens * bytes_per_token
/// kv_metadata = ceil(kv_payload * metadata overhead)
/// kv_fragment = ceil(kv_payload * fragmentation slack)
/// kv_reserved = kv_payload + kv_metadata + kv_fragment
/// ```
pub fn kv_breakdown(prompt_tokens: u64, bytes_per_token: u64) -> (b: KvBreakdown)
    requires
        footprint_countable(prompt_tokens as nat, bytes_per_token as nat),
    ensures
        b.prompt_tokens == prompt_tokens,
        b.kv_tokens == block_tokens(prompt_tokens as nat),
        b.kv_payload == payload_bytes(prompt_tokens as nat, bytes_per_token as nat),
        b.kv_metadata == ceil_ratio(
            b.kv_payload as nat,
            KV_METADATA_OVERHEAD_PERMILLE as nat,
            1000,
        ),
        b.kv_fragment == ceil_ratio(
            b.kv_payload as nat,
            KV_FRAGMENTATION_SLACK_PERMILLE as nat,
            1000,
        ),
        b.kv_reserved == reserved_bytes(prompt_tokens as nat, bytes_per_token as nat),
{
    checked_kv_breakdown(prompt_tokens, bytes_per_token).unwrap()
}

/// A reservation always covers the raw token bytes plus both overheads, and it
/// covers the prompt's own tokens.
pub proof fn reservation_covers_payload(prompt_tokens: nat, bytes_per_token: nat)
    ensures
        block_tokens(prompt_tokens) >= prompt_tokens,
        block_tokens(prompt_tokens) % CACHE_BLOCK_TOKENS as nat == 0,
        reserved_bytes(prompt_tokens, bytes_per_token) >= payload_bytes(
            prompt_tokens,
            bytes_per_token,
        ),
        payload_bytes(prompt_tokens, bytes_per_token) > 0 ==> reserved_bytes(
            prompt_tokens,
            bytes_per_token,
        ) >= payload_bytes(prompt_tokens, bytes_per_token) + 2,
{
}

/// A longer prompt never reserves less.
pub proof fn longer_prompts_reserve_more(shorter: nat, longer: nat, bytes_per_token: nat)
    requires
        shorter <= longer,
    ensures
        block_tokens(shorter) <= block_tokens(longer),
        payload_bytes(shorter, bytes_per_token) <= payload_bytes(longer, bytes_per_token),
        reserved_bytes(shorter, bytes_per_token) <= reserved_bytes(longer, bytes_per_token),
{
    let a = block_tokens(shorter);
    let b = block_tokens(longer);
    assert(a * bytes_per_token <= b * bytes_per_token) by (nonlinear_arith)
        requires
            a <= b,
    ;
}

/// The zero-based index of the nearest-rank 90th percentile of `n` samples.
pub open spec fn rank90(n: nat) -> int {
    ceil_ratio(n, 9, 10) - 1
}

/// 90th percentile of the samples by nearest rank.
pub open spec fn p90_of(samples: Seq<u64>) -> u64 {
    if samples.len() == 0 {
        0
    } else {
        ascending(samples)[rank90(samples.len())]
    }
}

/// 90th percentile of a sample by nearest rank; `0` for an empty one.
pub fn percentile90(samples: Vec<u64>) -> (r: u64)
    ensures
        r == p90_of(samples@),
{
    let n: usize = samples.len();
    if n == 0 {
        return 0;
    }
    let sorted: Vec<u64> = sorted(samples);
    let rank: u128 = (n as u128 * 9 + 9) / 10;
    let idx: usize = (rank - 1) as usize;
    sorted[idx]
}

/// Live fleet reservation plus one typical increment.
///
/// Exactly one increment is counted, whatever the number of requests in flight.
pub fn fleet_marginal_bytes(fleet_reserved: u64, p90_increment: u64) -> (r: u64)
    ensures
        r == if fleet_reserved + p90_increment > u64::MAX {
            u64::MAX as int
        } else {
            fleet_reserved + p90_increment
        },
{
    fleet_reserved.saturating_add(p90_increment)
}

/// The sum that must not be used for admission: one increment per request.
pub fn fleet_marginal_bytes_wrong(fleet_reserved: u64, p90_increment: u64, n: u64) -> (r: u64)
    ensures
        r == if fleet_reserved + saturating_product(p90_increment as nat, n as nat) > u64::MAX {
            u64::MAX as int
        } else {
            fleet_reserved + saturating_product(p90_increment as nat, n as nat)
        },
{
    fleet_reserved.saturating_add(saturating_mul_u64(p90_increment, n))
}

} // verus!
