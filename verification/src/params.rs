//! Deployment parameters.

use vstd::prelude::*;

verus! {

/// Tokens in one prefix-cache block; prompts are charged in whole blocks.
pub const CACHE_BLOCK_TOKENS: u64 = 256;

/// KV metadata overhead, in thousandths of the payload.
pub const KV_METADATA_OVERHEAD_PERMILLE: u64 = 50;

/// KV fragmentation slack, in thousandths of the payload.
pub const KV_FRAGMENTATION_SLACK_PERMILLE: u64 = 100;

/// Seconds after which an abandoned session's reservation is reclaimed.
pub const KV_ABANDONED_SESSION_TTL_S: u64 = 600;

/// Share of the ledger, in thousandths, that one prefill source may hold.
pub const KV_MAX_OUTSTANDING_PER_SOURCE_PERMILLE: u64 = 250;

/// Lowest learned-corrector multiplier (0.8), as a bit pattern.
pub const CORRECTOR_FLOOR_BITS: u64 = 0x3fe9_9999_9999_999a;

/// Highest learned-corrector multiplier (1.2), as a bit pattern.
pub const CORRECTOR_CEILING_BITS: u64 = 0x3ff3_3333_3333_3333;

/// Largest share of the cost that a full warmth hit takes off (0.5), as a bit pattern.
pub const WARMTH_MAX_DISCOUNT_BITS: u64 = 0x3fe0_0000_0000_0000;

/// Utilisation (0.999) above which the memory barrier stops rising, as a bit pattern.
pub const PHI_MAX_UTILISATION_BITS: u64 = 0x3fef_f7ce_d916_872b;

/// Prompts of up to this many tokens take the colocated fast path.
pub const ROUTING_SHORT_CONTEXT_TOKENS: u64 = 512;

/// Transfer distance within one node.
pub const TOPOLOGY_RDMA_SAME_NODE: u64 = 0;

/// Transfer distance within one rack.
pub const TOPOLOGY_RDMA_SAME_RACK: u64 = 1;

/// Transfer distance within one cluster.
pub const TOPOLOGY_RDMA_SAME_CLUSTER: u64 = 2;

/// Transfer distance across clusters.
pub const TOPOLOGY_RDMA_CROSS_CLUSTER: u64 = 3;

/// Base latency of a transfer within one node, in microseconds.
pub const RDMA_BASE_LATENCY_SAME_NODE_US: u64 = 2;

/// Base latency of a transfer within one rack, in microseconds.
pub const RDMA_BASE_LATENCY_SAME_RACK_US: u64 = 5;

/// Base latency of a transfer within one cluster, in microseconds.
pub const RDMA_BASE_LATENCY_SAME_CLUSTER_US: u64 = 12;

/// Base latency of a transfer across clusters, in microseconds.
pub const RDMA_BASE_LATENCY_CROSS_CLUSTER_US: u64 = 80;

/// Link bandwidth in bytes per second (100 Gb/s), as a bit pattern.
pub const RDMA_LINK_BYTES_PER_S_BITS: u64 = 0x4207_4876_e800_0000;

/// Lowest transfer barrier (1.0), as a bit pattern.
pub const RDMA_MIN_BARRIER_BITS: u64 = 0x3ff0_0000_0000_0000;

/// Whether pool shares are actuated unless the environment says otherwise.
pub const POOL_ACTUATION_ENABLED: bool = false;

/// Connections admitted in one burst.
pub const DATAPLANE_ADMIT_BURST: u64 = 4096;

/// Admission tokens that the kernel bucket regains per second.
pub const DATAPLANE_ADMIT_REFILL_PER_SEC: u64 = 2048;

/// Age in milliseconds from which a routing snapshot counts as stale.
pub const DATAPLANE_RCU_STALE_ALERT_MS: u64 = 500;

/// Milliseconds between two publications of the routing snapshot.
pub const DATAPLANE_RCU_HEARTBEAT_MS: u64 = 100;

/// Share of the inter-token latency that a cutover may stall (0.05), as a bit pattern.
pub const MIGRATION_ITL_BUDGET_FRACTION_EPS_BITS: u64 = 0x3fa9_9999_9999_999a;

/// Weight of queue pressure in the pool share (0.5), as a bit pattern.
pub const POOL_WEIGHT_QUEUE_BITS: u64 = 0x3fe0_0000_0000_0000;

/// Weight of KV pressure in the pool share (0.3), as a bit pattern.
pub const POOL_WEIGHT_KV_BITS: u64 = 0x3fd3_3333_3333_3333;

/// Weight of latency-objective pressure in the pool share (0.2), as a bit pattern.
pub const POOL_WEIGHT_SLO_BITS: u64 = 0x3fc9_9999_9999_999a;

/// Change of the pool share that is not worth acting on (0.05), as a bit pattern.
pub const POOL_REBALANCE_HYSTERESIS_BITS: u64 = 0x3fa9_9999_9999_999a;

/// Seconds between two changes of the pool share.
pub const POOL_REBALANCE_COOLDOWN_S: u64 = 30;

/// Penalty for decoding on another backend than prefill (1.15), as a bit pattern.
pub const ROUTING_TRANSFER_PENALTY_BITS: u64 = 0x3ff2_6666_6666_6666;

/// Weight of the newest measurement in a backend's observed latency (0.2), as a bit pattern.
pub const ROUTING_OBSERVED_LATENCY_EWMA_ALPHA_BITS: u64 = 0x3fc9_9999_9999_999a;

/// Warmth (0.6) from which a short prompt leaves the fast path for a warm cache, as a bit pattern.
pub const ROUTING_SHORT_CONTEXT_WARMTH_OVERRIDE_BITS: u64 = 0x3fe3_3333_3333_3333;

/// Smallest pool share that scales a cost (0.05), as a bit pattern.
pub const POOL_SHARE_FLOOR_BITS: u64 = 0x3fa9_9999_9999_999a;

/// Barriers that a pairing cost takes into account.
pub const MAX_SERVICE_BARRIERS: usize = 16;

/// Hand-off size over the expected one from which a claim is refused.
pub const KV_HANDOFF_BYTE_CEILING_MULTIPLE: u64 = 4;

/// Connections proxied at the same time.
pub const DATAPLANE_MAX_CONNS: u64 = 4096;

/// Longest prefill response that is buffered, in bytes.
pub const DATAPLANE_PREFILL_RESPONSE_MAX_BYTES: u64 = 1_048_576;

} // verus!
