//! The kernel admission program: its map state, how it is attached and whether it still is.

use vstd::prelude::*;
use vstd::string::*;
use crate::admission::{at_least_one, XdpAdmitConfig};
use crate::ledger::label_view;
use crate::text::{is_word, lowers_to, same_text};

verus! {

/// Run in the generic path of the kernel.
pub const XDP_FLAGS_SKB_MODE: u32 = 2;

/// Run in the driver.
pub const XDP_FLAGS_DRV_MODE: u32 = 4;

/// Why the kernel program is not in place.
#[derive(Debug, PartialEq, Eq)]
pub enum XdpAttachError {
    UnsupportedPlatform,
    ObjectNotBuilt,
    LoadFailed(String),
    AttachFailed(String),
}

impl XdpAttachError {
    /// The message shown to operators.
    pub open spec fn text(self) -> Seq<char> {
        match self {
            XdpAttachError::UnsupportedPlatform => "XDP attach requires Linux"@,
            XdpAttachError::ObjectNotBuilt =>
                "missing BPF object (xdp_admit_shed); run ./scripts/build-bpf.sh"@,
            XdpAttachError::LoadFailed(msg) => msg@,
            XdpAttachError::AttachFailed(msg) => msg@,
        }
    }

    /// The message shown to operators.
    pub fn message(&self) -> (r: String)
        ensures
            r@ == self.text(),
    {
        match self {
            XdpAttachError::UnsupportedPlatform => "XDP attach requires Linux".to_owned(),
            XdpAttachError::ObjectNotBuilt =>
                "missing BPF object (xdp_admit_shed); run ./scripts/build-bpf.sh".to_owned(),
            XdpAttachError::LoadFailed(msg) => msg.clone(),
            XdpAttachError::AttachFailed(msg) => msg.clone(),
        }
    }
}

/// The kernel bucket as it stands in its map.
#[derive(Debug, Clone, Copy, PartialEq, Eq, Structural)]
pub struct AdmitMapState {
    /// May dip below zero for a moment while connections are shed.
    pub tokens: i64,
    pub capacity: u64,
    pub refill_per_sec: u64,
    pub last_refill_ns: u64,
    /// Zero for all ports.
    pub listen_port: u64,
}

/// Counters of one processor.
#[derive(Debug, Clone, Copy, PartialEq, Eq, Structural)]
pub struct AdmitMapStats {
    pub shed_total: u64,
    pub pass_total: u64,
}

/// The signed number with the same eight bytes.
pub open spec fn signed_tokens(n: u64) -> i64 {
    if n <= i64::MAX {
        n as i64
    } else {
        (n - 0x1_0000_0000_0000_0000) as i64
    }
}

fn to_tokens(n: u64) -> (r: i64)
    ensures
        r == signed_tokens(n),
{
    if n <= i64::MAX as u64 {
        n as i64
    } else {
        (n as i128 - 0x1_0000_0000_0000_0000) as i64
    }
}

/// The state written before the program goes live: a full bucket, its refill clock at `now_ns`.
pub fn seed_admit_state(config: &XdpAdmitConfig, now_ns: u64) -> (r: AdmitMapState)
    ensures
        r == (AdmitMapState {
            tokens: signed_tokens(at_least_one(config.capacity)),
            capacity: at_least_one(config.capacity),
            refill_per_sec: config.refill_per_sec,
            last_refill_ns: now_ns,
            listen_port: match config.listen_port {
                Some(p) => p as u64,
                None => 0,
            },
        }),
{
    let cap: u64 = if config.capacity == 0 {
        1
    } else {
        config.capacity
    };
    AdmitMapState {
        tokens: to_tokens(cap),
        capacity: cap,
        refill_per_sec: config.refill_per_sec,
        last_refill_ns: now_ns,
        listen_port: match config.listen_port {
            Some(p) => p as u64,
            None => 0,
        },
    }
}

/// The state after a refill at another capacity; filter and refill rate stay.
pub fn reseed_admit_state(state: AdmitMapState, capacity: u64, now_ns: u64) -> (r: AdmitMapState)
    ensures
        r == (AdmitMapState {
            tokens: signed_tokens(at_least_one(capacity)),
            capacity: at_least_one(capacity),
            last_refill_ns: now_ns,
            ..state
        }),
{
    let cap: u64 = if capacity == 0 {
        1
    } else {
        capacity
    };
    AdmitMapState { tokens: to_tokens(cap), capacity: cap, last_refill_ns: now_ns, ..state }
}

/// Tokens that can be taken now.
pub fn available_tokens(state: &AdmitMapState) -> (r: u64)
    ensures
        r == if state.tokens < 0 {
            0
        } else {
            state.tokens as int
        },
{
    if state.tokens < 0 {
        0
    } else {
        state.tokens as u64
    }
}

/// Sum of the shed counters.
pub open spec fn shed_sum(stats: Seq<AdmitMapStats>) -> nat
    decreases stats.len(),
{
    if stats.len() == 0 {
        0
    } else {
        shed_sum(stats.drop_last()) + stats.last().shed_total as nat
    }
}

/// Sum of the pass counters.
pub open spec fn pass_sum(stats: Seq<AdmitMapStats>) -> nat
    decreases stats.len(),
{
    if stats.len() == 0 {
        0
    } else {
        pass_sum(stats.drop_last()) + stats.last().pass_total as nat
    }
}

proof fn lemma_sums_grow(stats: Seq<AdmitMapStats>, n: int)
    requires
        0 <= n <= stats.len(),
    ensures
        shed_sum(stats.take(n)) <= shed_sum(stats),
        pass_sum(stats.take(n)) <= pass_sum(stats),
    decreases stats.len(),
{
    if n == stats.len() {
        assert(stats.take(n) =~= stats);
    } else {
        lemma_sums_grow(stats.drop_last(), n);
        assert(stats.drop_last().take(n) =~= stats.take(n));
    }
}

/// Adds up the counters of all processors; `None` where a sum leaves 64 bits.
pub fn sum_admit_stats(stats: &Vec<AdmitMapStats>) -> (r: Option<AdmitMapStats>)
    ensures
        match r {
            Some(t) => t.shed_total == shed_sum(stats@) && t.pass_total == pass_sum(stats@),
            None => shed_sum(stats@) > u64::MAX || pass_sum(stats@) > u64::MAX,
        },
{
    let n: usize = stats.len();
    let mut shed: u64 = 0;
    let mut pass: u64 = 0;
    for i in 0..n
        invariant
            n == stats@.len(),
            shed == shed_sum(stats@.take(i as int)),
            pass == pass_sum(stats@.take(i as int)),
    {
        proof {
            assert(stats@.take(i + 1).drop_last() =~= stats@.take(i as int));
            lemma_sums_grow(stats@, i + 1);
        }
        match (shed.checked_add(stats[i].shed_total), pass.checked_add(stats[i].pass_total)) {
            (Some(s), Some(p)) => {
                shed = s;
                pass = p;
            },
            _ => {
                return None;
            },
        }
    }
    assert(stats@.take(n as int) =~= stats@);
    Some(AdmitMapStats { shed_total: shed, pass_total: pass })
}

/// Whether the program runs in the generic path under a mode.
pub open spec fn is_generic(mode: Seq<char>) -> bool {
    mode == "skb"@ || mode == "skb-fallback"@
}

/// The flags that detach a program attached in a mode.
pub fn xdp_detach_flags(mode: &str) -> (r: u32)
    ensures
        r == if is_generic(mode@) {
            XDP_FLAGS_SKB_MODE
        } else {
            XDP_FLAGS_DRV_MODE
        },
{
    if same_text(mode, "skb") || same_text(mode, "skb-fallback") {
        XDP_FLAGS_SKB_MODE
    } else {
        XDP_FLAGS_DRV_MODE
    }
}

/// The flags of the detach requests, in order: first the mode in use, then the other one, so that
/// no program stays behind.
pub fn detach_sequence(mode: &str) -> (r: (u32, u32))
    ensures
        r == if is_generic(mode@) {
            (XDP_FLAGS_SKB_MODE, XDP_FLAGS_DRV_MODE)
        } else {
            (XDP_FLAGS_DRV_MODE, XDP_FLAGS_SKB_MODE)
        },
{
    let first: u32 = xdp_detach_flags(mode);
    if first == XDP_FLAGS_SKB_MODE {
        (first, XDP_FLAGS_DRV_MODE)
    } else {
        (first, XDP_FLAGS_SKB_MODE)
    }
}

/// One way to attach the program: flags of the request, and what the mode is called.
#[derive(Debug, Clone, Copy)]
pub struct AttachAttempt {
    pub flags: u32,
    pub mode: &'static str,
}

/// The ways to attach the program, in order. The environment may force the generic path; otherwise
/// the driver comes first.
pub fn attach_sequence(forced: Option<&str>) -> (r: Vec<AttachAttempt>)
    ensures
        if label_view(forced) is Some && lowers_to(label_view(forced)->0, "skb"@) {
            &&& r@.len() == 1
            &&& r@[0].flags == XDP_FLAGS_SKB_MODE
            &&& r@[0].mode@ == "skb"@
        } else {
            &&& r@.len() == 2
            &&& r@[0].flags == 0
            &&& r@[0].mode@ == "driver"@
            &&& r@[1].flags == XDP_FLAGS_SKB_MODE
            &&& r@[1].mode@ == "skb-fallback"@
        },
{
    let mut out: Vec<AttachAttempt> = Vec::new();
    let generic: bool = match forced {
        Some(v) => is_word(v, "skb"),
        None => false,
    };
    if generic {
        out.push(AttachAttempt { flags: XDP_FLAGS_SKB_MODE, mode: "skb" });
    } else {
        out.push(AttachAttempt { flags: 0, mode: "driver" });
        out.push(AttachAttempt { flags: XDP_FLAGS_SKB_MODE, mode: "skb-fallback" });
    }
    out
}

/// Whether the program is still in place, by what the kernel said of the link. A failed query
/// counts as gone, so that admission is never lost silently.
pub fn link_is_alive(prog_id: u32, queried: Result<Option<u32>, i32>) -> (r: bool)
    ensures
        r == (queried matches Ok(Some(id)) && if prog_id == 0 {
            id != 0
        } else {
            id == prog_id
        }),
{
    match queried {
        Ok(Some(id)) => if prog_id == 0 {
            id != 0
        } else {
            id == prog_id
        },
        Ok(None) => false,
        Err(_) => false,
    }
}

} // verus!
