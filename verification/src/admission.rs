//! Admission before any request is read: the token bucket, its mode and the kernel's settings.

use vstd::prelude::*;
use vstd::arithmetic::power2::{lemma_pow2_pos, pow2};
use crate::binary64::{
    clamped, count_is_monotone, lemma_nearest_within, lemma_one_value, lemma_units_increase,
    lemma_value_order, of_nat, one, product, product_is_monotone, rounded, units, Real, ONE_BITS,
};
use crate::ledger::wrapping_next;
use crate::params::{DATAPLANE_ADMIT_BURST, DATAPLANE_ADMIT_REFILL_PER_SEC};
use crate::rounding::{lemma_nearest_monotone, nearest, HIDDEN_BIT};
use crate::text::{is_word, lowers_to, trim, trim_text};

verus! {

/// Why a connection was shed.
#[derive(Debug, Clone, Copy, PartialEq, Eq, Structural)]
pub enum ShedReason {
    BucketExhausted,
}

impl ShedReason {
    /// The message shown to operators.
    pub fn message(&self) -> (r: &'static str)
        ensures
            r@ == "admit bucket exhausted"@,
    {
        "admit bucket exhausted"
    }
}

/// `n`, or one in place of zero.
pub open spec fn at_least_one(n: u64) -> u64 {
    if n == 0 {
        1
    } else {
        n
    }
}

fn at_least_1(n: u64) -> (r: u64)
    ensures
        r == at_least_one(n),
{
    if n == 0 {
        1
    } else {
        n
    }
}

/// Tokens for connections in flight.
#[derive(Debug)]
pub struct AdmitBucket {
    tokens: u64,
    capacity: u64,
    shed_total: u64,
}

/// The bucket, as the contracts see it.
pub struct BucketState {
    pub tokens: u64,
    pub capacity: u64,
    pub shed_total: u64,
}

impl BucketState {
    /// There are never more tokens than the bucket holds, and it holds at least one.
    pub open spec fn valid(self) -> bool {
        self.tokens <= self.capacity && self.capacity > 0
    }
}

impl View for AdmitBucket {
    type V = BucketState;

    closed spec fn view(&self) -> BucketState {
        BucketState {
            tokens: self.tokens,
            capacity: self.capacity,
            shed_total: self.shed_total,
        }
    }
}

impl AdmitBucket {
    /// A full bucket; it holds at least one token.
    pub fn new(capacity: u64) -> (r: AdmitBucket)
        ensures
            r@ == (BucketState {
                tokens: at_least_one(capacity),
                capacity: at_least_one(capacity),
                shed_total: 0,
            }),
            r@.valid(),
    {
        let cap: u64 = at_least_1(capacity);
        AdmitBucket { tokens: cap, capacity: cap, shed_total: 0 }
    }

    pub fn capacity(&self) -> (r: u64)
        ensures
            r == self@.capacity,
    {
        self.capacity
    }

    pub fn available(&self) -> (r: u64)
        ensures
            r == self@.tokens,
    {
        self.tokens
    }

    pub fn shed_total(&self) -> (r: u64)
        ensures
            r == self@.shed_total,
    {
        self.shed_total
    }

    /// Takes a token, or counts a shed connection when there is none.
    pub fn try_admit(&mut self) -> (r: Result<(), ShedReason>)
        ensures
            r is Err <==> old(self)@.tokens == 0,
            final(self)@ == after_admit(old(self)@),
            old(self)@.valid() ==> final(self)@.valid(),
    {
        if self.tokens == 0 {
            self.shed_total = self.shed_total.wrapping_add(1);
            return Err(ShedReason::BucketExhausted);
        }
        self.tokens = self.tokens - 1;
        Ok(())
    }

    /// Puts tokens back, up to the capacity.
    pub fn release(&mut self, count: u64)
        ensures
            final(self)@ == after_release(old(self)@, count),
            old(self)@.valid() ==> final(self)@.valid(),
    {
        if count == 0 {
            return;
        }
        let next: u64 = self.tokens.saturating_add(count);
        self.tokens = if next < self.capacity {
            next
        } else {
            self.capacity
        };
    }

    /// Refills the bucket at another capacity.
    pub fn reseed(&mut self, capacity: u64)
        ensures
            final(self)@ == (BucketState {
                tokens: at_least_one(capacity),
                capacity: at_least_one(capacity),
                ..old(self)@
            }),
            final(self)@.valid(),
    {
        let cap: u64 = at_least_1(capacity);
        self.capacity = cap;
        self.tokens = cap;
    }
}

/// The bucket after tokens were put back.
pub open spec fn after_release(b: BucketState, count: u64) -> BucketState {
    if count == 0 {
        b
    } else if b.tokens + count < b.capacity {
        BucketState { tokens: (b.tokens + count) as u64, ..b }
    } else {
        BucketState { tokens: b.capacity, ..b }
    }
}

/// The bucket after a connection asked for a token.
pub open spec fn after_admit(b: BucketState) -> BucketState {
    if b.tokens == 0 {
        BucketState { shed_total: wrapping_next(b.shed_total), ..b }
    } else {
        BucketState { tokens: (b.tokens - 1) as u64, ..b }
    }
}

/// The bucket after so many connections asked for a token.
pub open spec fn after_admits(b: BucketState, asking: nat) -> BucketState
    decreases asking,
{
    if asking == 0 {
        b
    } else {
        after_admit(after_admits(b, (asking - 1) as nat))
    }
}

/// A token taken and put back leaves the bucket as it was.
pub proof fn release_undoes_admit(b: BucketState)
    requires
        b.valid(),
        b.tokens > 0,
    ensures
        after_release(after_admit(b), 1) == b,
{
}

/// However many connections ask, exactly as many are let in as there are tokens, and every other
/// one is counted as shed.
pub proof fn bucket_never_admits_too_many(b: BucketState, asking: nat)
    requires
        b.shed_total + asking <= u64::MAX,
    ensures
        ({
            let end = after_admits(b, asking);
            &&& end.capacity == b.capacity
            &&& asking <= b.tokens ==> end.tokens == b.tokens - asking && end.shed_total
                == b.shed_total
            &&& asking > b.tokens ==> end.tokens == 0 && end.shed_total == b.shed_total + asking
                - b.tokens
        }),
    decreases asking,
{
    if asking > 0 {
        bucket_never_admits_too_many(b, (asking - 1) as nat);
    }
}

/// Which layer sheds connections.
#[derive(Debug, Clone, Copy, PartialEq, Eq, Structural)]
pub enum AdmitMode {
    /// The bucket, on each accepted connection.
    Userspace,
    /// The kernel where it is attached, else the bucket, so that admission is never lost.
    KernelXdp,
    /// The kernel where it is attached, else the bucket.
    Hybrid,
}

impl Default for AdmitMode {
    fn default() -> (r: AdmitMode)
        ensures
            r == AdmitMode::Userspace,
    {
        AdmitMode::Userspace
    }
}

/// The mode a word stands for.
pub open spec fn mode_named(word: Seq<char>) -> Option<AdmitMode> {
    if lowers_to(word, "userspace"@) || lowers_to(word, "user"@) || lowers_to(word, "bucket"@) {
        Some(AdmitMode::Userspace)
    } else if lowers_to(word, "xdp"@) || lowers_to(word, "kernel"@) || lowers_to(
        word,
        "kernel_xdp"@,
    ) {
        Some(AdmitMode::KernelXdp)
    } else if lowers_to(word, "hybrid"@) {
        Some(AdmitMode::Hybrid)
    } else {
        None
    }
}

/// In every mode some layer admits: the bucket, or a kernel program that is attached.
pub proof fn admission_is_never_lost(mode: AdmitMode, kernel_attached: bool)
    ensures
        mode.takes_tokens(kernel_attached) || kernel_attached,
        mode.takes_tokens(false),
        mode == AdmitMode::Userspace ==> mode.takes_tokens(kernel_attached),
{
}

impl AdmitMode {
    /// Whether a connection takes a token from the bucket.
    pub open spec fn takes_tokens(self, kernel_attached: bool) -> bool {
        self == AdmitMode::Userspace || !kernel_attached
    }

    /// Reads a mode, in any case, between white space.
    pub fn parse(s: &str) -> (r: Option<AdmitMode>)
        ensures
            r == mode_named(trim(s@)),
    {
        let word: &str = trim_text(s);
        if is_word(word, "userspace") || is_word(word, "user") || is_word(word, "bucket") {
            Some(AdmitMode::Userspace)
        } else if is_word(word, "xdp") || is_word(word, "kernel") || is_word(word, "kernel_xdp") {
            Some(AdmitMode::KernelXdp)
        } else if is_word(word, "hybrid") {
            Some(AdmitMode::Hybrid)
        } else {
            None
        }
    }

    /// The mode that the environment asks for; the bucket if it asks for none.
    pub fn from_env(value: Option<&str>) -> (r: AdmitMode)
        ensures
            r == match value {
                Some(v) => match mode_named(trim(v@)) {
                    Some(m) => m,
                    None => AdmitMode::Userspace,
                },
                None => AdmitMode::Userspace,
            },
    {
        match value {
            Some(v) => match AdmitMode::parse(v) {
                Some(m) => m,
                None => AdmitMode::Userspace,
            },
            None => AdmitMode::Userspace,
        }
    }

    /// Whether a connection takes a token from the bucket.
    pub fn uses_userspace_admit(self, kernel_attached: bool) -> (r: bool)
        ensures
            r == self.takes_tokens(kernel_attached),
    {
        match self {
            AdmitMode::Userspace => true,
            AdmitMode::KernelXdp | AdmitMode::Hybrid => !kernel_attached,
        }
    }

    /// Whether the kernel is to be attached.
    pub fn wants_kernel(self) -> (r: bool)
        ensures
            r == (self != AdmitMode::Userspace),
    {
        match self {
            AdmitMode::Userspace => false,
            AdmitMode::KernelXdp | AdmitMode::Hybrid => true,
        }
    }
}

/// Lower bound of the share that scales the bucket (0.1), as a bit pattern.
pub const ADMIT_SHARE_FLOOR_BITS: u64 = 0x3fb9_9999_9999_999a;

/// The bucket size for a prefill share.
pub open spec fn scaled_capacity(base_burst: u64, pi: Real) -> u64 {
    at_least_one(
        rounded(
            product(
                of_nat(base_burst as nat),
                clamped(
                    pi,
                    Real { bits: ADMIT_SHARE_FLOOR_BITS },
                    one(),
                ),
            ),
        ),
    )
}

/// Scales the burst with the prefill share.
pub fn admit_capacity_for_pi(base_burst: u64, pi: Real) -> (r: u64)
    ensures
        r == scaled_capacity(base_burst, pi),
        r >= 1,
{
    let lo: Real = Real::from_bits(ADMIT_SHARE_FLOOR_BITS);
    let hi: Real = Real::from_bits(ONE_BITS);
    proof {
        lemma_value_order(hi, lo);
    }
    at_least_1(Real::from_u64(base_burst).times(pi.clamp_to(lo, hi)).round_to_u64())
}

/// The share that scales the bucket.
spec fn scale(pi: Real) -> Real {
    clamped(pi, Real { bits: ADMIT_SHARE_FLOOR_BITS }, one())
}

proof fn lemma_scale(pi: Real)
    requires
        !pi.is_nan(),
    ensures
        scale(pi).finite(),
        !scale(pi).negative(),
        units(scale(pi).magnitude()) <= pow2(1074),
{
    let floor = Real { bits: ADMIT_SHARE_FLOOR_BITS };
    lemma_one_value();
    lemma_value_order(one(), floor);
    lemma_value_order(pi, floor);
    lemma_value_order(one(), pi);
    lemma_value_order(floor, pi);
}

/// A bucket scaled by a share holds at least one token and never more than the whole burst.
pub proof fn scaled_bucket_stays_within_burst(base_burst: u64, pi: Real)
    requires
        0 < base_burst < 2 * HIDDEN_BIT,
    ensures
        1 <= scaled_capacity(base_burst, pi) <= base_burst,
{
    if !pi.is_nan() {
        lemma_scale(pi);
        let k = pow2(1074);
        lemma_pow2_pos(1074);
        let b = base_burst as nat;
        lemma_nearest_within(b * k, b, 1074);
        let x = of_nat(b);
        let u = units(x.magnitude());
        let c = units(scale(pi).magnitude());
        assert((u * c) * 1 <= (b * k) * k) by (nonlinear_arith)
            requires
                u <= b * k,
                c <= k,
        ;
        lemma_nearest_monotone(u * c, k, b * k, 1);
        let p = nearest(u * c, k);
        if p < nearest(b * k, 1) {
            lemma_units_increase(p, nearest(b * k, 1));
        }
        assert((2 * units(p) + k) / (2 * k) <= b) by (nonlinear_arith)
            requires
                units(p) <= b * k,
                k > 0,
        ;
    }
}

/// A larger share never makes the bucket smaller.
pub proof fn larger_share_never_shrinks_bucket(base_burst: u64, pi: Real, more: Real)
    requires
        pi.at_most(more),
    ensures
        scaled_capacity(base_burst, pi) <= scaled_capacity(base_burst, more),
{
    let floor = Real { bits: ADMIT_SHARE_FLOOR_BITS };
    let k = pow2(1074);
    lemma_pow2_pos(1074);
    lemma_scale(pi);
    lemma_scale(more);
    lemma_value_order(one(), floor);
    let x = of_nat(base_burst as nat);
    count_is_monotone(base_burst as nat, base_burst as nat);
    product_is_monotone(x, x, scale(pi), scale(more));
    let p = units(product(x, scale(pi)).magnitude());
    let q = units(product(x, scale(more)).magnitude());
    vstd::arithmetic::div_mod::lemma_div_is_ordered(
        (2 * p + k) as int,
        (2 * q + k) as int,
        (2 * k) as int,
    );
}

/// Settings of the kernel bucket.
#[derive(Debug, Clone, Copy, PartialEq, Eq, Structural)]
pub struct XdpAdmitConfig {
    /// Tokens in one burst.
    pub capacity: u64,
    /// Tokens regained per second; with none the bucket recovers only by being refilled.
    pub refill_per_sec: u64,
    /// Port whose connections count; all ports if there is none.
    pub listen_port: Option<u16>,
}

impl XdpAdmitConfig {
    /// A bucket of the given size with the default refill, on all ports.
    pub fn with_capacity(capacity: u64) -> (r: XdpAdmitConfig)
        ensures
            r == (XdpAdmitConfig {
                capacity,
                refill_per_sec: DATAPLANE_ADMIT_REFILL_PER_SEC,
                listen_port: None,
            }),
    {
        XdpAdmitConfig {
            capacity,
            refill_per_sec: DATAPLANE_ADMIT_REFILL_PER_SEC,
            listen_port: None,
        }
    }
}

impl Default for XdpAdmitConfig {
    fn default() -> (r: XdpAdmitConfig)
        ensures
            r == (XdpAdmitConfig {
                capacity: DATAPLANE_ADMIT_BURST,
                refill_per_sec: DATAPLANE_ADMIT_REFILL_PER_SEC,
                listen_port: None,
            }),
    {
        XdpAdmitConfig::with_capacity(DATAPLANE_ADMIT_BURST)
    }
}

} // verus!
