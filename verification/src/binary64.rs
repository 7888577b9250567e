//! Binary floating point on bit patterns.
//!
//! A [`Real`] is the bit pattern of an IEEE 754 double. Its exact value is an integer number of
//! smallest units, `2^-1074` each; arithmetic is exact arithmetic on those integers, rounded to
//! the nearest double with ties to even. Contracts over measured quantities (latencies, shares,
//! pressures) are stated with these functions and hold to the last bit.

use vstd::prelude::*;
use vstd::arithmetic::div_mod::{lemma_fundamental_div_mod, lemma_fundamental_div_mod_converse};
use vstd::arithmetic::power2::{
    lemma2_to64, lemma2_to64_rest, lemma_pow2_adds, lemma_pow2_pos, lemma_pow2_strictly_increases,
    lemma_pow2_unfold, pow2,
};
use crate::rounding::{
    bits_in, half_even, lemma_bits_in, lemma_bits_in_shl, lemma_bits_in_unique,
    lemma_exact_significand, lemma_nearest_absorbs, lemma_nearest_monotone, lemma_nearest_scale,
    lemma_nearest_shift, nearest, round_quotient, HIDDEN_BIT, INFINITY_BITS,
};

verus! {

/// The sign bit.
pub const SIGN_BIT: u64 = 0x8000_0000_0000_0000;

/// The encoding used for "not a number".
pub const NAN_BITS: u64 = 0x7ff8_0000_0000_0000;

/// Encoding of one.
pub const ONE_BITS: u64 = 0x3ff0_0000_0000_0000;

/// Encoding of the largest finite double.
pub const MAX_BITS: u64 = 0x7fef_ffff_ffff_ffff;

/// A double-precision value, held as its bit pattern.
///
/// `==` compares bit patterns; [`Real::lt`] and [`Real::le`] compare values.
#[derive(Debug, Clone, Copy, PartialEq, Eq, Hash, Structural)]
pub struct Real {
    pub bits: u64,
}

/// The significand of an unsigned encoding, with its hidden bit.
pub open spec fn significand(magnitude: u64) -> nat {
    if magnitude < HIDDEN_BIT {
        magnitude as nat
    } else {
        (HIDDEN_BIT + magnitude % HIDDEN_BIT) as nat
    }
}

/// How far the significand of an unsigned encoding is shifted left.
pub open spec fn shift(magnitude: u64) -> nat {
    if magnitude < HIDDEN_BIT {
        0
    } else {
        (magnitude / HIDDEN_BIT - 1) as nat
    }
}

/// The value of an unsigned encoding in smallest units.
pub open spec fn units(magnitude: u64) -> nat {
    significand(magnitude) * pow2(shift(magnitude))
}

/// An encoding with a sign.
pub open spec fn signed(negative: bool, magnitude: u64) -> Real {
    Real {
        bits: if negative {
            (magnitude + SIGN_BIT) as u64
        } else {
            magnitude
        },
    }
}

/// Zero.
pub open spec fn zero() -> Real {
    Real { bits: 0 }
}

/// One.
pub open spec fn one() -> Real {
    Real { bits: ONE_BITS }
}

/// Not a number.
pub open spec fn nan() -> Real {
    Real { bits: NAN_BITS }
}

/// `a + b`, rounded.
pub open spec fn sum(a: Real, b: Real) -> Real {
    if a.is_nan() || b.is_nan() {
        nan()
    } else if a.is_infinite() {
        if b.is_infinite() && a.negative() != b.negative() {
            nan()
        } else {
            a
        }
    } else if b.is_infinite() {
        b
    } else {
        let v = a.value() + b.value();
        if v == 0 {
            signed(a.negative() && b.negative(), 0)
        } else if v > 0 {
            signed(false, nearest(v as nat, 1))
        } else {
            signed(true, nearest((-v) as nat, 1))
        }
    }
}

/// `-a`.
pub open spec fn negation(a: Real) -> Real {
    signed(!a.negative(), a.magnitude())
}

/// `a - b`, rounded.
pub open spec fn difference(a: Real, b: Real) -> Real {
    sum(a, negation(b))
}

/// `a * b`, rounded.
pub open spec fn product(a: Real, b: Real) -> Real {
    let sign = a.negative() != b.negative();
    if a.is_nan() || b.is_nan() {
        nan()
    } else if a.is_infinite() || b.is_infinite() {
        if a.magnitude() == 0 || b.magnitude() == 0 {
            nan()
        } else {
            signed(sign, INFINITY_BITS)
        }
    } else {
        signed(sign, nearest(units(a.magnitude()) * units(b.magnitude()), pow2(1074)))
    }
}

/// `a / b`, rounded.
pub open spec fn quotient(a: Real, b: Real) -> Real {
    let sign = a.negative() != b.negative();
    if a.is_nan() || b.is_nan() {
        nan()
    } else if a.is_infinite() {
        if b.is_infinite() {
            nan()
        } else {
            signed(sign, INFINITY_BITS)
        }
    } else if b.is_infinite() {
        signed(sign, 0)
    } else if b.magnitude() == 0 {
        if a.magnitude() == 0 {
            nan()
        } else {
            signed(sign, INFINITY_BITS)
        }
    } else {
        signed(sign, nearest(units(a.magnitude()) * pow2(1074), units(b.magnitude())))
    }
}

/// The double nearest to an integer.
pub open spec fn of_nat(n: nat) -> Real {
    signed(false, nearest(n * pow2(1074), 1))
}

/// The larger of two values; a number wins over "not a number".
pub open spec fn larger(a: Real, b: Real) -> Real {
    if a.is_nan() || a.below(b) {
        b
    } else {
        a
    }
}

/// The smaller of two values; a number wins over "not a number".
pub open spec fn smaller(a: Real, b: Real) -> Real {
    if a.is_nan() || b.below(a) {
        b
    } else {
        a
    }
}

/// `x` held between `lo` and `hi`.
pub open spec fn clamped(x: Real, lo: Real, hi: Real) -> Real {
    if x.below(lo) {
        lo
    } else if hi.below(x) {
        hi
    } else {
        x
    }
}

/// `x` without its sign.
pub open spec fn absolute(x: Real) -> Real {
    signed(false, x.magnitude())
}

/// The integer part of a value, held within 64 bits.
pub open spec fn truncated(x: Real) -> u64 {
    if x.is_nan() || x.negative() {
        0
    } else if units(x.magnitude()) / pow2(1074) > u64::MAX {
        u64::MAX
    } else {
        (units(x.magnitude()) / pow2(1074)) as u64
    }
}

/// The nearest integer, halves going up, held within 64 bits.
pub open spec fn rounded(x: Real) -> u64 {
    if x.is_nan() || x.negative() {
        0
    } else if (2 * units(x.magnitude()) + pow2(1074)) / (2 * pow2(1074)) > u64::MAX {
        u64::MAX
    } else {
        ((2 * units(x.magnitude()) + pow2(1074)) / (2 * pow2(1074))) as u64
    }
}

impl Real {
    pub open spec fn negative(self) -> bool {
        self.bits >= SIGN_BIT
    }

    pub open spec fn magnitude(self) -> u64 {
        if self.bits >= SIGN_BIT {
            (self.bits - SIGN_BIT) as u64
        } else {
            self.bits
        }
    }

    pub open spec fn is_nan(self) -> bool {
        self.magnitude() > INFINITY_BITS
    }

    pub open spec fn is_infinite(self) -> bool {
        self.magnitude() == INFINITY_BITS
    }

    pub open spec fn finite(self) -> bool {
        self.magnitude() < INFINITY_BITS
    }

    /// The value in smallest units; infinities lie beyond all finite values.
    pub open spec fn value(self) -> int {
        if self.negative() {
            -units(self.magnitude())
        } else {
            units(self.magnitude()) as int
        }
    }

    /// `self < other` as numbers.
    pub open spec fn below(self, other: Real) -> bool {
        !self.is_nan() && !other.is_nan() && self.value() < other.value()
    }

    /// `self <= other` as numbers.
    pub open spec fn at_most(self, other: Real) -> bool {
        !self.is_nan() && !other.is_nan() && self.value() <= other.value()
    }

    /// Position in the total order of bit patterns (negative values first, then positive).
    pub open spec fn rank(self) -> int {
        if self.negative() {
            -self.magnitude() - 1
        } else {
            self.magnitude() as int
        }
    }
}

/// Larger encodings stand for larger values.
pub proof fn lemma_units_increase(a: u64, b: u64)
    requires
        a < b <= INFINITY_BITS,
    ensures
        units(a) < units(b),
{
    lemma2_to64();
    lemma_pow2_pos(shift(a));
    lemma_pow2_pos(shift(b));
    if b >= HIDDEN_BIT && shift(a) < shift(b) {
        lemma_pow2_unfold((shift(a) + 1) as nat);
        if shift(a) + 1 < shift(b) {
            lemma_pow2_strictly_increases((shift(a) + 1) as nat, shift(b));
        }
        assert(significand(a) * pow2(shift(a)) < significand(b) * pow2(shift(b)))
            by (nonlinear_arith)
            requires
                significand(a) < 2 * HIDDEN_BIT,
                significand(b) >= HIDDEN_BIT,
                pow2(shift(b)) >= 2 * pow2(shift(a)),
                pow2(shift(a)) > 0,
        ;
    } else {
        assert(shift(a) == shift(b));
        assert(significand(a) < significand(b));
        assert(significand(a) * pow2(shift(a)) < significand(b) * pow2(shift(b)))
            by (nonlinear_arith)
            requires
                significand(a) < significand(b),
                shift(a) == shift(b),
                pow2(shift(a)) > 0,
        ;
    }
}

/// Values are ordered as their encodings are.
pub proof fn lemma_value_order(a: Real, b: Real)
    requires
        !a.is_nan(),
        !b.is_nan(),
    ensures
        !a.negative() && !b.negative() ==> (a.value() < b.value() <==> a.magnitude()
            < b.magnitude()),
        a.negative() && b.negative() ==> (a.value() < b.value() <==> b.magnitude()
            < a.magnitude()),
        a.negative() && !b.negative() ==> (a.value() < b.value() <==> a.magnitude() != 0
            || b.magnitude() != 0),
        !a.negative() && b.negative() ==> a.value() >= b.value(),
        (units(a.magnitude()) == 0) == (a.magnitude() == 0),
{
    let x = a.magnitude();
    let y = b.magnitude();
    assert(units(0) == 0) by (nonlinear_arith);
    if x < y {
        lemma_units_increase(x, y);
    } else if y < x {
        lemma_units_increase(y, x);
    }
    if x > 0 {
        lemma_units_increase(0, x);
    }
    if y > 0 {
        lemma_units_increase(0, y);
    }
}

/// The total order of bit patterns extends the order of numbers.
pub proof fn rank_extends_order(a: Real, b: Real)
    requires
        a.below(b),
    ensures
        a.rank() < b.rank(),
{
    lemma_value_order(a, b);
}

/// Distinct bit patterns have distinct ranks.
pub proof fn rank_is_injective(a: Real, b: Real)
    requires
        a.rank() == b.rank(),
    ensures
        a == b,
{
}

impl Real {
    /// The value with this bit pattern.
    pub fn from_bits(bits: u64) -> (r: Real)
        ensures
            r.bits == bits,
    {
        Real { bits }
    }

    /// The bit pattern.
    pub fn to_bits(self) -> (r: u64)
        ensures
            r == self.bits,
    {
        self.bits
    }

    fn mag(self) -> (r: u64)
        ensures
            r == self.magnitude(),
    {
        if self.bits >= SIGN_BIT {
            self.bits - SIGN_BIT
        } else {
            self.bits
        }
    }

    fn neg_sign(self) -> (r: bool)
        ensures
            r == self.negative(),
    {
        self.bits >= SIGN_BIT
    }

    fn with_sign(negative: bool, magnitude: u64) -> (r: Real)
        requires
            magnitude <= INFINITY_BITS,
        ensures
            r == signed(negative, magnitude),
    {
        if negative {
            Real { bits: magnitude + SIGN_BIT }
        } else {
            Real { bits: magnitude }
        }
    }

    /// Whether the value is neither infinite nor "not a number".
    pub fn is_finite(self) -> (r: bool)
        ensures
            r == self.finite(),
    {
        self.mag() < INFINITY_BITS
    }

    fn not_a_number(self) -> (r: bool)
        ensures
            r == self.is_nan(),
    {
        self.mag() > INFINITY_BITS
    }

    /// `self < other`.
    pub fn lt(self, other: Real) -> (r: bool)
        ensures
            r == self.below(other),
    {
        if self.not_a_number() || other.not_a_number() {
            return false;
        }
        proof {
            lemma_value_order(self, other);
        }
        let a: u64 = self.mag();
        let b: u64 = other.mag();
        if self.neg_sign() {
            if other.neg_sign() {
                b < a
            } else {
                a != 0 || b != 0
            }
        } else if other.neg_sign() {
            false
        } else {
            a < b
        }
    }

    /// `self <= other`.
    pub fn le(self, other: Real) -> (r: bool)
        ensures
            r == self.at_most(other),
    {
        if self.not_a_number() || other.not_a_number() {
            return false;
        }
        !other.lt(self)
    }

    /// Position in the total order of bit patterns.
    pub fn total_rank(self) -> (r: i64)
        ensures
            r == self.rank(),
    {
        if self.neg_sign() {
            -(self.mag() as i64) - 1
        } else {
            self.mag() as i64
        }
    }

    /// The larger of two values.
    pub fn max_with(self, other: Real) -> (r: Real)
        ensures
            r == larger(self, other),
    {
        if self.not_a_number() || self.lt(other) {
            other
        } else {
            self
        }
    }

    /// The smaller of two values.
    pub fn min_with(self, other: Real) -> (r: Real)
        ensures
            r == smaller(self, other),
    {
        if self.not_a_number() || other.lt(self) {
            other
        } else {
            self
        }
    }

    /// The value held between two bounds; "not a number" stays what it is.
    pub fn clamp_to(self, lo: Real, hi: Real) -> (r: Real)
        requires
            lo.at_most(hi),
        ensures
            r == clamped(self, lo, hi),
            !self.is_nan() ==> lo.at_most(r) && r.at_most(hi),
            self.is_nan() ==> r == self,
    {
        if self.lt(lo) {
            lo
        } else if hi.lt(self) {
            hi
        } else {
            self
        }
    }

    /// The value without its sign.
    pub fn abs_value(self) -> (r: Real)
        ensures
            r == absolute(self),
    {
        Real { bits: self.mag() }
    }

    /// The value with its sign turned.
    pub fn negated(self) -> (r: Real)
        ensures
            r == negation(self),
    {
        if self.neg_sign() {
            Real { bits: self.bits - SIGN_BIT }
        } else {
            Real { bits: self.bits + SIGN_BIT }
        }
    }
}

/// Significand and shift of an unsigned encoding.
fn decode(magnitude: u64) -> (r: (u64, u32))
    requires
        magnitude < INFINITY_BITS,
    ensures
        r.0 == significand(magnitude),
        r.1 == shift(magnitude),
        r.0 < 2 * HIDDEN_BIT,
        r.1 <= 2045,
        r.1 > 0 ==> r.0 >= HIDDEN_BIT,
        (r.0 == 0) == (magnitude == 0),
        r.1 * HIDDEN_BIT + r.0 == magnitude,
{
    if magnitude < HIDDEN_BIT {
        (magnitude, 0)
    } else {
        (HIDDEN_BIT + magnitude % HIDDEN_BIT, (magnitude / HIDDEN_BIT - 1) as u32)
    }
}

proof fn lemma_digits_at_most(n: nat, len: nat)
    requires
        n < pow2(len),
    ensures
        bits_in(n) <= len,
{
    lemma_bits_in(n);
    if bits_in(n) > len {
        if len < bits_in(n) - 1 {
            lemma_pow2_strictly_increases(len, (bits_in(n) - 1) as nat);
        }
    }
}

proof fn lemma_digits_at_least(n: nat, len: nat)
    requires
        n >= pow2(len),
    ensures
        bits_in(n) >= len + 1,
{
    lemma_bits_in(n);
    if bits_in(n) <= len {
        if bits_in(n) < len {
            lemma_pow2_strictly_increases(bits_in(n), len);
        }
    }
}

/// `2^n` for small `n`.
fn small_power(n: u32) -> (r: u128)
    requires
        n <= 126,
    ensures
        r == pow2(n as nat),
        r > 0,
{
    proof {
        lemma2_to64();
        lemma2_to64_rest();
        lemma_pow2_adds(64, 62);
        assert(0x1_0000_0000_0000_0000int * 0x4000_0000_0000_0000int <= u128::MAX);
    }
    let mut r: u128 = 1;
    let mut i: u32 = 0;
    while i < n
        invariant
            i <= n <= 126,
            r == pow2(i as nat),
            r > 0,
            pow2(126) <= u128::MAX,
        decreases n - i,
    {
        proof {
            lemma_pow2_unfold((i + 1) as nat);
            if i + 1 < 126 {
                lemma_pow2_strictly_increases((i + 1) as nat, 126);
            }
        }
        r = r * 2;
        i = i + 1;
    }
    r
}

/// Magnitude of the sum of two finite values of the same sign.
fn add_magnitudes(hi: u64, lo: u64) -> (r: u64)
    requires
        lo <= hi < INFINITY_BITS,
        hi > 0,
    ensures
        r == nearest(units(hi) + units(lo), 1),
{
    let (mh, sh) = decode(hi);
    let (ml, sl) = decode(lo);
    proof {
        lemma_shift_monotone(lo, hi);
    }
    let diff: u32 = sh - sl;
    proof {
        lemma_pow2_adds(sl as nat, diff as nat);
    }
    if diff <= 64 {
        let scale: u128 = small_power(diff);
        proof {
            lemma2_to64();
            lemma_small_scale(mh, diff);
            lemma_aligned(mh, ml, sh, sl);
        }
        let p: u128 = mh as u128 * scale + ml as u128;
        proof {
            lemma2_to64_rest();
            lemma_pow2_adds(64, 60);
            lemma_digits_at_most(p as nat, 124);
            assert(p as int / 1 == p) by {
                vstd::arithmetic::div_mod::lemma_div_basics(p as int);
            }
            assert(p as int % 1 == 0);
        }
        round_quotient(p, false, sl as i32, Ghost(p as nat), Ghost(1nat))
    } else {
        proof {
            lemma_far_below(ml, sl, sh);
            lemma_nearest_absorbs(mh as nat, sh as nat, units(lo) as int);
        }
        hi
    }
}

/// Magnitude of the difference of two finite values.
fn subtract_magnitudes(hi: u64, lo: u64) -> (r: u64)
    requires
        lo < hi < INFINITY_BITS,
    ensures
        r == nearest((units(hi) - units(lo)) as nat, 1),
{
    let (mh, sh) = decode(hi);
    let (ml, sl) = decode(lo);
    proof {
        lemma_shift_monotone(lo, hi);
        lemma_units_increase(lo, hi);
    }
    let diff: u32 = sh - sl;
    proof {
        lemma_pow2_adds(sl as nat, diff as nat);
    }
    if diff <= 64 {
        let scale: u128 = small_power(diff);
        proof {
            lemma2_to64();
            lemma_small_scale(mh, diff);
            lemma_aligned(mh, ml, sh, sl);
            lemma_pow2_pos(sl as nat);
            assert(mh * scale >= ml) by (nonlinear_arith)
                requires
                    units(hi) > units(lo),
                    units(hi) == (mh * scale) * pow2(sl as nat),
                    units(lo) == ml * pow2(sl as nat),
                    pow2(sl as nat) > 0,
            ;
        }
        let p: u128 = mh as u128 * scale - ml as u128;
        proof {
            lemma2_to64_rest();
            lemma_pow2_adds(64, 60);
            lemma_digits_at_most(p as nat, 124);
            assert(p as int / 1 == p) by {
                vstd::arithmetic::div_mod::lemma_div_basics(p as int);
            }
            assert(p as int % 1 == 0);
        }
        round_quotient(p, false, sl as i32, Ghost(p as nat), Ghost(1nat))
    } else {
        proof {
            lemma_far_below(ml, sl, sh);
            lemma_nearest_absorbs(mh as nat, sh as nat, -units(lo));
        }
        hi
    }
}

proof fn lemma_shift_monotone(lo: u64, hi: u64)
    requires
        lo <= hi,
    ensures
        shift(lo) <= shift(hi),
{
    if lo >= HIDDEN_BIT {
        assert(lo / HIDDEN_BIT <= hi / HIDDEN_BIT) by (nonlinear_arith)
            requires
                lo <= hi,
        ;
    }
}

proof fn lemma_small_scale(m: u64, diff: u32)
    requires
        diff <= 64,
        m < 2 * HIDDEN_BIT,
    ensures
        0 <= m * pow2(diff as nat) < 0x20_0000_0000_0000int * 0x1_0000_0000_0000_0000int,
        pow2(diff as nat) <= 0x1_0000_0000_0000_0000int,
{
    lemma2_to64();
    lemma_pow2_pos(diff as nat);
    if diff < 64 {
        lemma_pow2_strictly_increases(diff as nat, 64);
    }
    assert(0 <= m * pow2(diff as nat) < 0x20_0000_0000_0000int * 0x1_0000_0000_0000_0000int)
        by (nonlinear_arith)
        requires
            0 <= m < 0x20_0000_0000_0000int,
            0 < pow2(diff as nat) <= 0x1_0000_0000_0000_0000int,
    ;
}

/// Two values written over the smaller of their two units.
proof fn lemma_aligned(mh: u64, ml: u64, sh: u32, sl: u32)
    requires
        sl <= sh,
    ensures
        mh * pow2(sh as nat) == (mh * pow2((sh - sl) as nat)) * pow2(sl as nat),
        mh * pow2(sh as nat) + ml * pow2(sl as nat) == (mh * pow2((sh - sl) as nat) + ml) * pow2(
            sl as nat,
        ),
        mh * pow2(sh as nat) - ml * pow2(sl as nat) == (mh * pow2((sh - sl) as nat) - ml) * pow2(
            sl as nat,
        ),
{
    let a = pow2((sh - sl) as nat);
    let b = pow2(sl as nat);
    lemma_pow2_adds(sl as nat, (sh - sl) as nat);
    assert(mh * (b * a) == (mh * a) * b) by (nonlinear_arith);
    assert((mh * a) * b + ml * b == (mh * a + ml) * b) by (nonlinear_arith);
    assert((mh * a) * b - ml * b == (mh * a - ml) * b) by (nonlinear_arith);
}

/// A value more than 64 places down is below a quarter of the last digit.
proof fn lemma_far_below(ml: u64, sl: u32, sh: u32)
    requires
        ml < 2 * HIDDEN_BIT,
        sh > sl + 64,
    ensures
        0 <= ml * pow2(sl as nat) < pow2((sh - 2) as nat),
{
    lemma2_to64_rest();
    lemma_pow2_adds(53, sl as nat);
    lemma_pow2_pos(sl as nat);
    lemma_pow2_strictly_increases((53 + sl) as nat, (sh - 2) as nat);
    assert(0 <= ml * pow2(sl as nat) < pow2(53) * pow2(sl as nat)) by (nonlinear_arith)
        requires
            0 <= ml < pow2(53),
            pow2(sl as nat) > 0,
    ;
}

proof fn lemma_product_units(m1: u64, s1: u32, m2: u64, s2: u32)
    ensures
        (m1 * pow2(s1 as nat)) * (m2 * pow2(s2 as nat)) == (m1 * m2) * pow2((s1 + s2) as nat),
{
    lemma_pow2_adds(s1 as nat, s2 as nat);
    let a = pow2(s1 as nat);
    let b = pow2(s2 as nat);
    assert((m1 * a) * (m2 * b) == (m1 * m2) * (a * b)) by (nonlinear_arith);
}

/// Encodings produced by rounding are never beyond infinity.
pub proof fn lemma_nearest_range(n: nat, d: nat)
    ensures
        nearest(n, d) <= INFINITY_BITS,
{
}

impl Real {
    /// `self + other`.
    pub fn plus(self, other: Real) -> (r: Real)
        ensures
            r == sum(self, other),
    {
        if self.not_a_number() || other.not_a_number() {
            return Real { bits: NAN_BITS };
        }
        let a: u64 = self.mag();
        let b: u64 = other.mag();
        if a == INFINITY_BITS {
            if b == INFINITY_BITS && self.neg_sign() != other.neg_sign() {
                return Real { bits: NAN_BITS };
            }
            return self;
        }
        if b == INFINITY_BITS {
            return other;
        }
        proof {
            lemma_value_order(self, other);
            lemma_value_order(other, self);
        }
        if self.neg_sign() == other.neg_sign() {
            if a == 0 && b == 0 {
                return self;
            }
            let (hi, lo) = if a >= b {
                (a, b)
            } else {
                (b, a)
            };
            let m: u64 = add_magnitudes(hi, lo);
            proof {
                lemma_nearest_range(units(hi) + units(lo), 1);
            }
            Real::with_sign(self.neg_sign(), m)
        } else if a == b {
            Real { bits: 0 }
        } else {
            let (hi, lo, sign) = if a > b {
                (a, b, self.neg_sign())
            } else {
                (b, a, other.neg_sign())
            };
            proof {
                lemma_units_increase(lo, hi);
                lemma_nearest_range((units(hi) - units(lo)) as nat, 1);
            }
            let m: u64 = subtract_magnitudes(hi, lo);
            Real::with_sign(sign, m)
        }
    }

    /// `self - other`.
    pub fn minus(self, other: Real) -> (r: Real)
        ensures
            r == difference(self, other),
    {
        self.plus(other.negated())
    }

    /// `self * other`.
    pub fn times(self, other: Real) -> (r: Real)
        ensures
            r == product(self, other),
    {
        if self.not_a_number() || other.not_a_number() {
            return Real { bits: NAN_BITS };
        }
        let a: u64 = self.mag();
        let b: u64 = other.mag();
        let sign: bool = self.neg_sign() != other.neg_sign();
        if a == INFINITY_BITS || b == INFINITY_BITS {
            if a == 0 || b == 0 {
                return Real { bits: NAN_BITS };
            }
            return Real::with_sign(sign, INFINITY_BITS);
        }
        let (m1, s1) = decode(a);
        let (m2, s2) = decode(b);
        assert(0 <= m1 * m2 < 0x20_0000_0000_0000int * 0x20_0000_0000_0000int)
            by (nonlinear_arith)
            requires
                0 <= m1 < 0x20_0000_0000_0000int,
                0 <= m2 < 0x20_0000_0000_0000int,
        ;
        let p: u128 = m1 as u128 * m2 as u128;
        let k: i32 = s1 as i32 + s2 as i32 - 1074;
        proof {
            lemma2_to64_rest();
            lemma_pow2_adds(53, 53);
            lemma_digits_at_most(p as nat, 106);
            lemma_product_units(m1, s1, m2, s2);
            lemma_nearest_shift(p as nat, 1, (s1 + s2) as nat, 1074);
            assert(p as int / 1 == p) by {
                vstd::arithmetic::div_mod::lemma_div_basics(p as int);
            }
            assert(p as int % 1 == 0);
            assert(1 * pow2(1074) == pow2(1074));
            lemma_nearest_range(units(a) * units(b), pow2(1074));
        }
        let m: u64 = round_quotient(p, false, k, Ghost(p as nat), Ghost(1nat));
        Real::with_sign(sign, m)
    }

    /// `self / other`.
    pub fn over(self, other: Real) -> (r: Real)
        ensures
            r == quotient(self, other),
    {
        if self.not_a_number() || other.not_a_number() {
            return Real { bits: NAN_BITS };
        }
        let a: u64 = self.mag();
        let b: u64 = other.mag();
        let sign: bool = self.neg_sign() != other.neg_sign();
        if a == INFINITY_BITS {
            if b == INFINITY_BITS {
                return Real { bits: NAN_BITS };
            }
            return Real::with_sign(sign, INFINITY_BITS);
        }
        if b == INFINITY_BITS {
            return Real::with_sign(sign, 0);
        }
        if b == 0 {
            if a == 0 {
                return Real { bits: NAN_BITS };
            }
            return Real::with_sign(sign, INFINITY_BITS);
        }
        let m: u64 = divide_magnitudes(a, b);
        proof {
            lemma_nearest_range(units(a) * pow2(1074), units(b));
        }
        Real::with_sign(sign, m)
    }

    /// The double nearest to an integer.
    pub fn from_u64(x: u64) -> (r: Real)
        ensures
            r == of_nat(x as nat),
    {
        proof {
            lemma2_to64();
            lemma_digits_at_most(x as nat, 64);
            assert(x as int / 1 == x) by {
                vstd::arithmetic::div_mod::lemma_div_basics(x as int);
            }
            assert(x as int % 1 == 0);
            lemma_nearest_range(x as nat * pow2(1074), 1);
        }
        let m: u64 = round_quotient(x as u128, false, 1074, Ghost(x as nat), Ghost(1nat));
        Real::with_sign(false, m)
    }
}

/// Magnitude of the quotient of two finite values, the divisor not zero.
fn divide_magnitudes(a: u64, b: u64) -> (r: u64)
    requires
        a < INFINITY_BITS,
        0 < b < INFINITY_BITS,
    ensures
        r == nearest(units(a) * pow2(1074), units(b)),
{
    let (m1, s1) = decode(a);
    let (m2, s2) = decode(b);
    // Shift the dividend until the quotient has more digits than a significand.
    let mut x: u128 = m1 as u128;
    let mut j: u32 = 0;
    proof {
        lemma2_to64();
        lemma2_to64_rest();
        lemma_pow2_pos(0);
        lemma_pow2_adds(64, 62);
        assert(0x1_0000_0000_0000_0000int * 0x4000_0000_0000_0000int
            == 0x4000_0000_0000_0000_0000_0000_0000_0000int);
    }
    if m1 != 0 {
        assert(m1 as nat * pow2(0) == m1) by (nonlinear_arith)
            requires
                pow2(0) == 1,
        ;
        while x < 0x4000_0000_0000_0000_0000_0000_0000_0000
            invariant
                x == m1 as nat * pow2(j as nat),
                0 < x < 0x8000_0000_0000_0000_0000_0000_0000_0000,
                j <= 126,
                x >= pow2(j as nat),
                pow2(126) == 0x4000_0000_0000_0000_0000_0000_0000_0000,
            decreases 0x8000_0000_0000_0000_0000_0000_0000_0000 - x,
        {
            proof {
                lemma_pow2_unfold((j + 1) as nat);
                assert(m1 as nat * (2 * pow2(j as nat)) == 2 * (m1 as nat * pow2(j as nat)))
                    by (nonlinear_arith);
                if j >= 126 {
                    assert(pow2(j as nat) == pow2(126));
                }
            }
            x = x * 2;
            j = j + 1;
        }
    }
    let q: u128 = x / m2 as u128;
    let inexact: bool = x % m2 as u128 != 0;
    let k: i32 = s1 as i32 + 1074 - s2 as i32 - j as i32;
    proof {
        let xn = x as nat;
        let yn = m2 as nat;
        if m1 != 0 {
            lemma_pow2_adds(64, 62);
            lemma_fundamental_div_mod(x as int, m2 as int);
            lemma_pow2_adds(53, 73);
            assert(q >= pow2(73)) by (nonlinear_arith)
                requires
                    x == m2 * q + x % (m2 as u128),
                    0 <= x % (m2 as u128) < m2,
                    x >= pow2(53) * pow2(73),
                    m2 <= pow2(53),
                    m2 > 0,
            ;
            lemma_digits_at_least(q as nat, 73);
        } else {
            assert(q == 0 && !inexact) by (nonlinear_arith)
                requires
                    x == 0,
                    m2 > 0,
                    q == x / m2 as u128,
                    inexact == (x % m2 as u128 != 0),
            ;
        }
        lemma_pow2_adds(64, 63);
        assert(q <= x) by (nonlinear_arith)
            requires
                q == x / m2 as u128,
                m2 >= 1,
                x >= 0,
        ;
        lemma_digits_at_most(q as nat, 127);
        lemma_division_units(m1 as nat, s1 as nat, m2 as nat, s2 as nat, j as nat, xn);
    }
    round_quotient(q, inexact, k, Ghost(x as nat), Ghost(m2 as nat))
}

/// A quotient of two scaled significands, the dividend shifted left by `j`.
proof fn lemma_division_units(m1: nat, s1: nat, m2: nat, s2: nat, j: nat, x: nat)
    requires
        m2 > 0,
        x == m1 * pow2(j) || (m1 == 0 && x == 0),
    ensures
        nearest((m1 * pow2(s1)) * pow2(1074), m2 * pow2(s2)) == nearest(
            crate::rounding::scaled_up(x, s1 + 1074 - s2 - j),
            crate::rounding::scaled_down(m2, s1 + 1074 - s2 - j),
        ),
{
    let c = pow2(j);
    lemma_pow2_pos(j);
    lemma_pow2_pos(s2);
    assert(x == m1 * c) by (nonlinear_arith)
        requires
            x == m1 * c || (m1 == 0 && x == 0),
    ;
    lemma_pow2_adds(s1, 1074);
    lemma_pow2_adds(s2, j);
    let e = pow2(s1);
    let f = pow2(1074);
    let g = pow2(s2);
    assert(c * ((m1 * e) * f) == x * (e * f)) by (nonlinear_arith)
        requires
            x == m1 * c,
    ;
    assert(c * (m2 * g) == m2 * (g * c)) by (nonlinear_arith);
    assert(m2 * g > 0) by (nonlinear_arith)
        requires
            m2 > 0,
            g > 0,
    ;
    lemma_nearest_scale(c, (m1 * e) * f, m2 * g);
    lemma_nearest_shift(x, m2, s1 + 1074, s2 + j);
}

/// Whole numbers of a value whose last digit is at least one.
proof fn lemma_whole_part_high(m: nat, s: nat)
    requires
        s >= 1074,
    ensures
        (m * pow2(s)) / pow2(1074) == m * pow2((s - 1074) as nat),
        (2 * (m * pow2(s)) + pow2(1074)) / (2 * pow2(1074)) == m * pow2((s - 1074) as nat),
{
    let d = pow2(1074);
    let w = m * pow2((s - 1074) as nat);
    lemma_pow2_pos(1074);
    lemma_pow2_adds(1074, (s - 1074) as nat);
    assert(m * pow2(s) == w * d) by (nonlinear_arith)
        requires
            pow2(s) == d * pow2((s - 1074) as nat),
            w == m * pow2((s - 1074) as nat),
    ;
    lemma_fundamental_div_mod_converse((m * pow2(s)) as int, d as int, w as int, 0);
    assert(2 * (w * d) + d == w * (2 * d) + d) by (nonlinear_arith);
    lemma_fundamental_div_mod_converse(
        (2 * (m * pow2(s)) + d) as int,
        (2 * d) as int,
        w as int,
        d as int,
    );
}

/// Whole numbers of a value whose last digit is below one.
proof fn lemma_whole_part_low(m: nat, s: nat)
    requires
        s < 1074,
        m < 2 * HIDDEN_BIT,
    ensures
        ({
            let j = (1074 - s) as nat;
            &&& (m * pow2(s)) / pow2(1074) == m / pow2(j)
            &&& (2 * (m * pow2(s)) + pow2(1074)) / (2 * pow2(1074)) == (m + pow2((j - 1) as nat))
                / pow2(j)
            &&& j >= 54 ==> m / pow2(j) == 0 && (m + pow2((j - 1) as nat)) / pow2(j) == 0
        }),
{
    let j = (1074 - s) as nat;
    let c = pow2(s);
    let d = pow2(j);
    let h = pow2((j - 1) as nat);
    lemma_pow2_pos(s);
    lemma_pow2_pos(j);
    lemma_pow2_unfold(j);
    lemma_pow2_adds(s, j);
    // m * c / (c * d)
    lemma_fundamental_div_mod(m as int, d as int);
    let q = m as int / d as int;
    let r = m as int % d as int;
    assert(m * c == q * (c * d) + r * c && 0 <= r * c < c * d) by (nonlinear_arith)
        requires
            m == d * q + r,
            0 <= r < d,
            c > 0,
    ;
    lemma_fundamental_div_mod_converse((m * c) as int, (c * d) as int, q, r * c);
    let q2 = (m + h) as int / d as int;
    let r2 = (m + h) as int % d as int;
    lemma_fundamental_div_mod((m + h) as int, d as int);
    assert(2 * (m * c) + c * d == q2 * (2 * (c * d)) + 2 * (r2 * c) && 0 <= 2 * (r2 * c) < 2 * (c
        * d)) by (nonlinear_arith)
        requires
            m + h == d * q2 + r2,
            d == 2 * h,
            0 <= r2 < d,
            c > 0,
    ;
    lemma_fundamental_div_mod_converse(
        (2 * (m * c) + c * d) as int,
        (2 * (c * d)) as int,
        q2,
        2 * (r2 * c),
    );
    if j >= 54 {
        lemma2_to64_rest();
        if j > 54 {
            lemma_pow2_strictly_increases(54, j);
        }
        lemma_fundamental_div_mod_converse(m as int, d as int, 0, m as int);
        lemma_fundamental_div_mod_converse((m + h) as int, d as int, 0, (m + h) as int);
    }
}

/// `m * 2^j`, held within 64 bits.
fn shifted_saturating(m: u64, j: u32) -> (r: u64)
    requires
        m < 2 * HIDDEN_BIT,
    ensures
        r == if m * pow2(j as nat) > u64::MAX {
            u64::MAX as int
        } else {
            m * pow2(j as nat)
        },
{
    if m == 0 {
        assert(m * pow2(j as nat) == 0) by (nonlinear_arith)
            requires
                m == 0,
        ;
        return 0;
    }
    if j > 64 {
        proof {
            lemma2_to64();
            lemma_pow2_strictly_increases(64, j as nat);
            assert(m * pow2(j as nat) >= pow2(j as nat)) by (nonlinear_arith)
                requires
                    m >= 1,
                    pow2(j as nat) > 0,
            ;
        }
        return u64::MAX;
    }
    proof {
        lemma_small_scale(m, j);
    }
    let wide: u128 = m as u128 * small_power(j);
    if wide > u64::MAX as u128 {
        u64::MAX
    } else {
        wide as u64
    }
}

proof fn lemma_infinity_is_huge()
    ensures
        units(INFINITY_BITS) / pow2(1074) > u64::MAX,
        (2 * units(INFINITY_BITS) + pow2(1074)) / (2 * pow2(1074)) > u64::MAX,
{
    let m = HIDDEN_BIT as nat;
    assert(significand(INFINITY_BITS) == m);
    assert(shift(INFINITY_BITS) == 2046);
    lemma_whole_part_high(m, 2046);
    lemma2_to64();
    lemma_pow2_strictly_increases(64, 972);
    assert(m * pow2(972) > u64::MAX) by (nonlinear_arith)
        requires
            m >= 1,
            pow2(972) > u64::MAX,
    ;
}

impl Real {
    /// The integer part, `0` for negative values and "not a number", at most the largest integer.
    pub fn to_u64(self) -> (r: u64)
        ensures
            r == truncated(self),
    {
        if self.not_a_number() || self.neg_sign() {
            return 0;
        }
        let a: u64 = self.mag();
        if a == INFINITY_BITS {
            proof {
                lemma_infinity_is_huge();
            }
            return u64::MAX;
        }
        let (m, s) = decode(a);
        if s >= 1074 {
            proof {
                lemma_whole_part_high(m as nat, s as nat);
            }
            shifted_saturating(m, s - 1074)
        } else {
            let j: u32 = 1074 - s;
            proof {
                lemma_whole_part_low(m as nat, s as nat);
                lemma_pow2_pos(j as nat);
            }
            if j >= 54 {
                0
            } else {
                let d: u128 = small_power(j);
                let q: u128 = m as u128 / d;
                assert(q <= m) by (nonlinear_arith)
                    requires
                        q == m as u128 / d,
                        d >= 1,
                ;
                q as u64
            }
        }
    }

    /// The nearest integer, halves going up, within the same limits as [`Real::to_u64`].
    pub fn round_to_u64(self) -> (r: u64)
        ensures
            r == rounded(self),
    {
        if self.not_a_number() || self.neg_sign() {
            return 0;
        }
        let a: u64 = self.mag();
        if a == INFINITY_BITS {
            proof {
                lemma_infinity_is_huge();
            }
            return u64::MAX;
        }
        let (m, s) = decode(a);
        if s >= 1074 {
            proof {
                lemma_whole_part_high(m as nat, s as nat);
            }
            shifted_saturating(m, s - 1074)
        } else {
            let j: u32 = 1074 - s;
            proof {
                lemma_whole_part_low(m as nat, s as nat);
                lemma_pow2_pos(j as nat);
            }
            if j >= 54 {
                0
            } else {
                let d: u128 = small_power(j);
                let h: u128 = small_power(j - 1);
                proof {
                    lemma2_to64_rest();
                    if j - 1 < 53 {
                        lemma_pow2_strictly_increases((j - 1) as nat, 53);
                    }
                }
                let w: u128 = m as u128 + h;
                let q: u128 = w / d;
                assert(q <= w) by (nonlinear_arith)
                    requires
                        q == w / d,
                        d >= 1,
                ;
                q as u64
            }
        }
    }

    /// Seconds in a duration given in nanoseconds.
    pub fn seconds_from_nanos(ns: u128) -> (r: Real)
        ensures
            r == seconds_of_nanos(ns as nat),
    {
        let whole: u128 = ns / 1_000_000_000;
        let rest: u64 = (ns % 1_000_000_000) as u64;
        proof {
            lemma2_to64();
            lemma2_to64_rest();
            lemma_pow2_adds(64, 35);
            lemma_digits_at_most(whole as nat, 99);
            assert(whole as int / 1 == whole) by {
                vstd::arithmetic::div_mod::lemma_div_basics(whole as int);
            }
            assert(whole as int % 1 == 0);
            lemma_nearest_range(whole as nat * pow2(1074), 1);
        }
        let m: u64 = round_quotient(whole, false, 1074, Ghost(whole as nat), Ghost(1nat));
        Real::with_sign(false, m).plus(
            Real::from_u64(rest).over(Real::from_u64(1_000_000_000)),
        )
    }
}

/// Whole seconds plus the fraction, each rounded.
pub open spec fn seconds_of_nanos(ns: nat) -> Real {
    sum(
        of_nat(ns / 1_000_000_000),
        quotient(of_nat(ns % 1_000_000_000), of_nat(1_000_000_000)),
    )
}

/// A value that is a double already is not changed by rounding.
pub proof fn lemma_nearest_of_units(magnitude: u64)
    requires
        magnitude < INFINITY_BITS,
    ensures
        nearest(units(magnitude), 1) == magnitude,
{
    let m = significand(magnitude);
    let s = shift(magnitude);
    let n = m * pow2(s);
    lemma2_to64();
    lemma2_to64_rest();
    assert(n as int / 1 == n) by {
        vstd::arithmetic::div_mod::lemma_div_basics(n as int);
    }
    if s == 0 {
        assert(n == m) by (nonlinear_arith)
            requires
                n == m * pow2(s),
                pow2(s) == 1,
        ;
        lemma_digits_at_most(m, 53);
        assert(half_even(m, 1 * pow2(0)) == m) by {
            assert(1 * pow2(0) == 1);
            vstd::arithmetic::div_mod::lemma_div_basics(m as int);
            assert(m as int % 1 == 0);
        }
    } else {
        lemma_bits_in_unique(m, 53);
        lemma_bits_in_shl(m, s);
        lemma_exact_significand(m, s, s);
        assert(m * pow2(0) == m) by (nonlinear_arith)
            requires
                pow2(0) == 1,
        ;
        assert(1 * pow2(s) == pow2(s));
    }
}

/// Rounding never crosses a double: a quotient at most that large rounds to at most it, and one at
/// least that large rounds to at least it.
pub proof fn lemma_nearest_bound(n: nat, d: nat, magnitude: u64)
    requires
        d > 0,
        magnitude < INFINITY_BITS,
    ensures
        n <= units(magnitude) * d ==> nearest(n, d) <= magnitude,
        n >= units(magnitude) * d ==> nearest(n, d) >= magnitude,
{
    lemma_nearest_of_units(magnitude);
    let u = units(magnitude);
    if n <= u * d {
        lemma_nearest_monotone(n, d, u, 1);
    }
    if n >= u * d {
        lemma_nearest_monotone(u, 1, n, d);
    }
}

/// The double nearest to `2^k` units is `2^k` units.
pub proof fn lemma_units_of_power(k: nat)
    requires
        52 <= k <= 2097,
    ensures
        units(((k - 51) * HIDDEN_BIT) as u64) == pow2(k),
        (k - 51) * HIDDEN_BIT < INFINITY_BITS,
{
    let magnitude = ((k - 51) * HIDDEN_BIT) as u64;
    assert(magnitude % HIDDEN_BIT == 0) by (nonlinear_arith)
        requires
            magnitude == (k - 51) * HIDDEN_BIT,
            HIDDEN_BIT == 0x10_0000_0000_0000,
    ;
    assert(magnitude / HIDDEN_BIT == k - 51) by (nonlinear_arith)
        requires
            magnitude == (k - 51) * HIDDEN_BIT,
            HIDDEN_BIT == 0x10_0000_0000_0000,
    ;
    lemma2_to64_rest();
    lemma_pow2_adds(52, (k - 52) as nat);
}

/// The value of one.
pub proof fn lemma_one_value()
    ensures
        units(ONE_BITS) == pow2(1074),
        one().value() == pow2(1074),
        one().finite(),
{
    lemma_units_of_power(1074);
}

/// The value of an encoding put together from a shift and a significand.
pub proof fn lemma_units_of_encoded(s: nat, m: nat)
    requires
        m <= 2 * HIDDEN_BIT,
        s == 0 || HIDDEN_BIT <= m,
        s * HIDDEN_BIT + m <= INFINITY_BITS,
    ensures
        units((s * HIDDEN_BIT + m) as u64) == m * pow2(s),
{
    let magnitude = (s * HIDDEN_BIT + m) as u64;
    lemma2_to64();
    if magnitude < HIDDEN_BIT {
        assert(s == 0);
    } else if m < 2 * HIDDEN_BIT {
        assert(magnitude as int == (s + 1) * HIDDEN_BIT + (m - HIDDEN_BIT)) by (nonlinear_arith)
            requires
                magnitude == s * HIDDEN_BIT + m,
        ;
        lemma_fundamental_div_mod_converse(
            magnitude as int,
            HIDDEN_BIT as int,
            (s + 1) as int,
            m - HIDDEN_BIT,
        );
    } else {
        assert(magnitude as int == (s + 2) * HIDDEN_BIT) by (nonlinear_arith)
            requires
                magnitude == s * HIDDEN_BIT + m,
                m == 2 * HIDDEN_BIT,
        ;
        lemma_fundamental_div_mod_converse(
            magnitude as int,
            HIDDEN_BIT as int,
            (s + 2) as int,
            0,
        );
        lemma_pow2_unfold(s + 1);
        assert(HIDDEN_BIT * (2 * pow2(s)) == (2 * HIDDEN_BIT) * pow2(s)) by (nonlinear_arith);
    }
}

/// A multiple of a power of two with at most 53 digits bounds what rounds below it.
pub proof fn lemma_nearest_within(n: nat, c: nat, k: nat)
    requires
        0 < c < 2 * HIDDEN_BIT,
        k <= 2000,
        n <= c * pow2(k),
    ensures
        nearest(n, 1) < INFINITY_BITS,
        units(nearest(n, 1)) <= c * pow2(k),
{
    let w = c * pow2(k);
    lemma2_to64_rest();
    lemma_bits_in(c);
    lemma_digits_at_most(c, 53);
    lemma_bits_in_shl(c, k);
    assert(w as int / 1 == w) by {
        vstd::arithmetic::div_mod::lemma_div_basics(w as int);
    }
    let len = bits_in(c);
    let s = crate::rounding::excess(w);
    lemma_exact_significand(c, k, s);
    assert(1 * pow2(s) == pow2(s));
    let m = c * pow2((k - s) as nat);
    lemma_pow2_adds((k - s) as nat, s);
    assert(m * pow2(s) == w) by (nonlinear_arith)
        requires
            m == c * pow2((k - s) as nat),
            w == c * pow2(k),
            pow2(k) == pow2((k - s) as nat) * pow2(s),
    ;
    crate::rounding::lemma_significand_range(w, 1);
    lemma_units_of_encoded(s, m);
    let r = nearest(w, 1);
    assert(n * 1 <= w * 1);
    lemma_nearest_monotone(n, 1, w, 1);
    if nearest(n, 1) < r {
        lemma_units_increase(nearest(n, 1), r);
    }
}

/// A count below `2^k` has an encoding at most that of `2^k`, and at least that of one.
pub proof fn lemma_count_below(n: nat, k: nat)
    requires
        n <= pow2(k),
        k <= 64,
    ensures
        of_nat(n).finite(),
        !of_nat(n).negative(),
        units(of_nat(n).magnitude()) <= pow2(1074 + k),
        n > 0 ==> units(of_nat(n).magnitude()) >= pow2(1074),
{
    lemma_pow2_adds(k, 1074);
    lemma_pow2_pos(1074);
    lemma_units_of_power(1074 + k);
    lemma_one_value();
    assert(n * pow2(1074) <= pow2(k) * pow2(1074)) by (nonlinear_arith)
        requires
            n <= pow2(k),
            pow2(1074) > 0,
    ;
    let top = ((1074 + k - 51) * HIDDEN_BIT) as u64;
    lemma_nearest_bound(n * pow2(1074), 1, top);
    let m = nearest(n * pow2(1074), 1);
    if m < top {
        lemma_units_increase(m, top);
    }
    if n > 0 {
        assert(n * pow2(1074) >= pow2(1074) * 1) by (nonlinear_arith)
            requires
                n >= 1,
                pow2(1074) > 0,
        ;
        lemma_nearest_bound(n * pow2(1074), 1, ONE_BITS);
        if m > ONE_BITS {
            lemma_units_increase(ONE_BITS, m);
        }
    }
}

/// A quotient of magnitudes at most `2^a` by at least `2^b` is at most `2^(a + 1074 - b)` units.
pub proof fn lemma_quotient_below(x: Real, y: Real, a: nat, b: nat)
    requires
        x.finite(),
        y.finite(),
        !x.negative(),
        !y.negative(),
        units(x.magnitude()) <= pow2(a),
        units(y.magnitude()) >= pow2(b),
        52 <= a + 1074 - b <= 2000,
    ensures
        quotient(x, y).finite(),
        !quotient(x, y).negative(),
        units(quotient(x, y).magnitude()) <= pow2((a + 1074 - b) as nat),
{
    let c = (a + 1074 - b) as nat;
    let u = units(x.magnitude());
    let v = units(y.magnitude());
    lemma_pow2_adds(a, 1074);
    lemma_pow2_adds(c, b);
    lemma_pow2_pos(1074);
    lemma_pow2_pos(b);
    lemma_pow2_pos(c);
    lemma_units_of_power(c);
    assert(u * pow2(1074) <= pow2(c) * v) by (nonlinear_arith)
        requires
            u <= pow2(a),
            v >= pow2(b),
            pow2(a) * pow2(1074) == pow2(c) * pow2(b),
            pow2(1074) > 0,
            pow2(c) > 0,
    ;
    let top = ((c - 51) * HIDDEN_BIT) as u64;
    lemma_nearest_bound(u * pow2(1074), v, top);
    assert(y.magnitude() != 0) by {
        if y.magnitude() == 0 {
            assert(units(0) == 0) by (nonlinear_arith);
        }
    }
    let m = nearest(u * pow2(1074), v);
    if m < top {
        lemma_units_increase(m, top);
    }
}

/// A value in parts of `1 / scale`, to the nearest, a tie going to the even one.
pub open spec fn parts_of(x: Real, scale: nat) -> nat {
    half_even(units(x.magnitude()) * scale, pow2(1074))
}

/// A time in seconds to the nearest nanosecond, a tie going to the even one.
pub open spec fn nanos_of(seconds: Real) -> nat {
    parts_of(seconds, 1_000_000_000)
}

impl Real {
    /// A time in seconds to the nearest nanosecond.
    pub fn to_nanos(self) -> (r: u128)
        requires
            self.finite(),
            !self.negative(),
            units(self.magnitude()) < pow2(1138),
        ensures
            r == nanos_of(self),
    {
        self.to_parts(1_000_000_000)
    }

    /// The value in parts of `1 / scale`, to the nearest.
    pub fn to_parts(self, scale: u64) -> (r: u128)
        requires
            self.finite(),
            units(self.magnitude()) < pow2(1138),
            scale <= 1_000_000_000,
        ensures
            r == parts_of(self, scale as nat),
    {
        let (m, s) = decode(self.mag());
        assert(0 <= m * scale <= 0x20_0000_0000_0000int * 1_000_000_000) by (nonlinear_arith)
            requires
                0 <= m <= 0x20_0000_0000_0000int,
                0 <= scale <= 1_000_000_000,
        ;
        let p: u128 = m as u128 * scale as u128;
        let ghost d = pow2(1074);
        proof {
            lemma_pow2_pos(1074);
            lemma2_to64_rest();
            lemma2_to64();
        }
        if s >= 1074 {
            let up: u32 = s - 1074;
            proof {
                lemma_pow2_adds(52, s as nat);
                if up > 11 {
                    if 52 + s > 1138 {
                        lemma_pow2_strictly_increases(1138, (52 + s) as nat);
                    }
                    assert(m * pow2(s as nat) >= pow2(52) * pow2(s as nat)) by (nonlinear_arith)
                        requires
                            m >= pow2(52),
                            pow2(s as nat) >= 0,
                    ;
                }
                assert(up <= 11);
                lemma_pow2_adds(1074, up as nat);
                if up < 11 {
                    lemma_pow2_strictly_increases(up as nat, 11);
                }
                let e = pow2(up as nat);
                assert((m * pow2(s as nat)) * scale == (p * e) * d) by (nonlinear_arith)
                    requires
                        pow2(s as nat) == d * e,
                        p == m * scale,
                ;
                assert(0 <= p * e <= 0x20_0000_0000_0000int * 1_000_000_000 * 2048)
                    by (nonlinear_arith)
                    requires
                        0 <= p <= 0x20_0000_0000_0000int * 1_000_000_000,
                        0 <= e <= 2048,
                ;
                lemma_fundamental_div_mod_converse((p * e) * d as int, d as int, p * e, 0);
            }
            return p * small_power(up);
        }
        let j: u32 = 1074 - s;
        proof {
            lemma_pow2_adds(s as nat, j as nat);
            lemma_pow2_pos(s as nat);
            lemma_pow2_pos(j as nat);
            let c = pow2(s as nat);
            assert((m * c) * scale == c * p) by (nonlinear_arith)
                requires
                    p == m * scale,
            ;
            crate::rounding::lemma_half_even_scale(c, p as nat, pow2(j as nat));
        }
        if j > 84 {
            proof {
                lemma_pow2_adds(53, 31);
                lemma_pow2_strictly_increases(84, j as nat);
                lemma_pow2_unfold(j as nat);
                if 84 < j - 1 {
                    lemma_pow2_strictly_increases(84, (j - 1) as nat);
                }
                lemma_fundamental_div_mod_converse(
                    p as int,
                    pow2(j as nat) as int,
                    0,
                    p as int,
                );
            }
            return 0;
        }
        let unit: u128 = small_power(j);
        let q: u128 = p / unit;
        let low: u128 = p % unit;
        proof {
            lemma_pow2_adds(53, 31);
            if j < 84 {
                lemma_pow2_strictly_increases(j as nat, 84);
            }
            assert(0x20_0000_0000_0000int * 0x8000_0000int <= u128::MAX / 4);
            assert(q <= p) by (nonlinear_arith)
                requires
                    q == p / unit,
                    unit >= 1,
            ;
        }
        if 2 * low < unit || (2 * low == unit && q % 2 == 0) {
            q
        } else {
            q + 1
        }
    }
}

/// The value of a rounded sum of finite values.
pub proof fn lemma_sum_value(a: Real, b: Real)
    requires
        a.finite(),
        b.finite(),
    ensures
        !sum(a, b).is_nan(),
        a.value() + b.value() == 0 ==> sum(a, b).value() == 0,
        a.value() + b.value() > 0 ==> sum(a, b).value() == units(
            nearest((a.value() + b.value()) as nat, 1),
        ),
        a.value() + b.value() < 0 ==> sum(a, b).value() == -units(
            nearest((-(a.value() + b.value())) as nat, 1),
        ),
{
    let v = a.value() + b.value();
    assert(units(0) == 0) by (nonlinear_arith);
    if v > 0 {
        lemma_nearest_range(v as nat, 1);
    } else if v < 0 {
        lemma_nearest_range((-v) as nat, 1);
    }
}

proof fn lemma_nearest_units_monotone(m: nat, n: nat)
    requires
        m <= n,
    ensures
        units(nearest(m, 1)) <= units(nearest(n, 1)),
{
    assert(m * 1 <= n * 1);
    lemma_nearest_monotone(m, 1, n, 1);
    lemma_nearest_range(n, 1);
    if nearest(m, 1) < nearest(n, 1) {
        lemma_units_increase(nearest(m, 1), nearest(n, 1));
    }
}

/// Larger summands never give a smaller sum.
pub proof fn sum_is_monotone(a: Real, b: Real, c: Real, d: Real)
    requires
        a.finite(),
        b.finite(),
        c.finite(),
        d.finite(),
        a.at_most(b),
        c.at_most(d),
    ensures
        sum(a, c).at_most(sum(b, d)),
{
    lemma_sum_value(a, c);
    lemma_sum_value(b, d);
    let v = a.value() + c.value();
    let w = b.value() + d.value();
    if v > 0 {
        lemma_nearest_units_monotone(v as nat, w as nat);
    } else if w < 0 {
        lemma_nearest_units_monotone((-w) as nat, (-v) as nat);
    }
}

/// Adding a value that is not negative never makes a sum smaller.
pub proof fn adding_never_lowers(a: Real, c: Real)
    requires
        a.finite(),
        c.finite(),
        zero().at_most(c),
    ensures
        a.at_most(sum(a, c)),
{
    lemma_sum_value(a, c);
    let v = a.value() + c.value();
    assert(zero().value() == 0) by {
        assert(units(0) == 0) by (nonlinear_arith);
    }
    lemma_nearest_of_units(a.magnitude());
    if a.value() > 0 {
        lemma_nearest_units_monotone(a.value() as nat, v as nat);
    } else if v < 0 {
        lemma_nearest_units_monotone((-v) as nat, (-a.value()) as nat);
    }
}

/// Larger factors never give a smaller product, where none is negative.
pub proof fn product_is_monotone(a: Real, b: Real, c: Real, d: Real)
    requires
        a.finite(),
        b.finite(),
        c.finite(),
        d.finite(),
        !a.negative(),
        !c.negative(),
        !b.negative(),
        !d.negative(),
        a.at_most(b),
        c.at_most(d),
    ensures
        product(a, c).at_most(product(b, d)),
{
    let m = units(a.magnitude()) * units(c.magnitude());
    let n = units(b.magnitude()) * units(d.magnitude());
    let k = pow2(1074);
    lemma_pow2_pos(1074);
    assert(m <= n) by (nonlinear_arith)
        requires
            m == units(a.magnitude()) * units(c.magnitude()),
            n == units(b.magnitude()) * units(d.magnitude()),
            units(a.magnitude()) <= units(b.magnitude()),
            units(c.magnitude()) <= units(d.magnitude()),
    ;
    assert(m * k <= n * k) by (nonlinear_arith)
        requires
            m <= n,
            k > 0,
    ;
    lemma_nearest_monotone(m, k, n, k);
    lemma_nearest_range(n, k);
    if nearest(m, k) < nearest(n, k) {
        lemma_units_increase(nearest(m, k), nearest(n, k));
    }
}

/// A larger dividend never gives a smaller quotient, where nothing is negative.
pub proof fn quotient_is_monotone(a: Real, b: Real, c: Real)
    requires
        a.finite(),
        b.finite(),
        c.finite(),
        !a.negative(),
        !b.negative(),
        !c.negative(),
        c.magnitude() > 0,
        a.at_most(b),
    ensures
        quotient(a, c).at_most(quotient(b, c)),
{
    let k = pow2(1074);
    let d = units(c.magnitude());
    lemma_pow2_pos(1074);
    assert(units(0) == 0) by (nonlinear_arith);
    lemma_units_increase(0, c.magnitude());
    let m = units(a.magnitude()) * k;
    let n = units(b.magnitude()) * k;
    assert(m * d <= n * d) by (nonlinear_arith)
        requires
            m == units(a.magnitude()) * k,
            n == units(b.magnitude()) * k,
            units(a.magnitude()) <= units(b.magnitude()),
            k > 0,
            d > 0,
    ;
    lemma_nearest_monotone(m, d, n, d);
    lemma_nearest_range(n, d);
    if nearest(m, d) < nearest(n, d) {
        lemma_units_increase(nearest(m, d), nearest(n, d));
    }
}

/// Larger integers never give smaller doubles.
pub proof fn count_is_monotone(m: nat, n: nat)
    requires
        m <= n <= u64::MAX,
    ensures
        of_nat(m).finite(),
        of_nat(n).finite(),
        !of_nat(m).negative(),
        !of_nat(n).negative(),
        of_nat(m).at_most(of_nat(n)),
{
    lemma2_to64();
    lemma_count_below(m, 64);
    lemma_count_below(n, 64);
    lemma_pow2_pos(1074);
    assert(m * pow2(1074) <= n * pow2(1074)) by (nonlinear_arith)
        requires
            m <= n,
            pow2(1074) > 0,
    ;
    lemma_nearest_units_monotone(m * pow2(1074), n * pow2(1074));
}

/// Taking away more never leaves more.
pub proof fn difference_is_monotone(a: Real, b: Real, c: Real)
    requires
        a.finite(),
        b.finite(),
        c.finite(),
        b.at_most(c),
    ensures
        difference(a, c).at_most(difference(a, b)),
{
    assert(units(0) == 0) by (nonlinear_arith);
    sum_is_monotone(a, a, negation(c), negation(b));
}

/// Rounding below `2^k` units moves a value by at most half a step there.
pub proof fn lemma_nearest_error(v: nat, k: nat)
    requires
        54 <= k <= 1900,
        v < pow2(k),
    ensures
        nearest(v, 1) < INFINITY_BITS,
        units(nearest(v, 1)) - v <= pow2((k - 54) as nat),
        v - units(nearest(v, 1)) <= pow2((k - 54) as nat),
{
    lemma_digits_at_most(v, k);
    vstd::arithmetic::div_mod::lemma_div_basics(v as int);
    assert(v / 1 == v);
    let s = crate::rounding::excess(v);
    let unit = pow2(s);
    lemma_pow2_pos(s);
    assert(1 * unit == unit);
    crate::rounding::lemma_significand_range(v, 1);
    let m = crate::rounding::half_even(v, unit);
    lemma_units_of_encoded(s, m);
    lemma_fundamental_div_mod(v as int, unit as int);
    vstd::arithmetic::div_mod::lemma_mod_bound(v as int, unit as int);
    let q = v / unit;
    let r = v % unit;
    assert(2 * (m * unit - v) <= unit && 2 * (v - m * unit) <= unit) by (nonlinear_arith)
        requires
            v == unit * q + r,
            0 <= r < unit,
            (m == q && 2 * r <= unit) || (m == q + 1 && 2 * r >= unit),
    ;
    lemma_pow2_unfold((k - 53) as nat);
    if s < k - 53 {
        lemma_pow2_strictly_increases(s, (k - 53) as nat);
    }
}

/// A rounded sum is within half a step of the exact one.
pub proof fn lemma_sum_error(a: Real, b: Real, k: nat)
    requires
        a.finite(),
        b.finite(),
        54 <= k <= 1900,
        -pow2(k) < a.value() + b.value() < pow2(k),
    ensures
        sum(a, b).finite(),
        sum(a, b).value() - (a.value() + b.value()) <= pow2((k - 54) as nat),
        (a.value() + b.value()) - sum(a, b).value() <= pow2((k - 54) as nat),
{
    lemma_sum_value(a, b);
    let v = a.value() + b.value();
    if v > 0 {
        lemma_nearest_error(v as nat, k);
    } else if v < 0 {
        lemma_nearest_error((-v) as nat, k);
    }
}

/// A quotient of magnitudes at least `2^a` by at most `2^b` is at least `2^(a + 1074 - b)` units.
pub proof fn lemma_quotient_above(x: Real, y: Real, a: nat, b: nat)
    requires
        x.finite(),
        y.finite(),
        !x.negative(),
        !y.negative(),
        y.magnitude() > 0,
        units(x.magnitude()) >= pow2(a),
        units(y.magnitude()) <= pow2(b),
        52 <= a + 1074 - b <= 2000,
    ensures
        !quotient(x, y).negative(),
        !quotient(x, y).is_nan(),
        units(quotient(x, y).magnitude()) >= pow2((a + 1074 - b) as nat),
{
    let c = (a + 1074 - b) as nat;
    let u = units(x.magnitude());
    let v = units(y.magnitude());
    lemma_pow2_adds(a, 1074);
    lemma_pow2_adds(c, b);
    lemma_pow2_pos(1074);
    lemma_pow2_pos(c);
    lemma_units_of_power(c);
    assert(units(0) == 0) by (nonlinear_arith);
    lemma_units_increase(0, y.magnitude());
    assert(u * pow2(1074) >= pow2(c) * v) by (nonlinear_arith)
        requires
            u >= pow2(a),
            v <= pow2(b),
            pow2(a) * pow2(1074) == pow2(c) * pow2(b),
            pow2(1074) > 0,
            pow2(c) > 0,
    ;
    let floor = ((c - 51) * HIDDEN_BIT) as u64;
    lemma_nearest_bound(u * pow2(1074), v, floor);
    lemma_nearest_range(u * pow2(1074), v);
    let m = nearest(u * pow2(1074), v);
    if floor < m {
        lemma_units_increase(floor, m);
    }
}

/// A quotient below `2^k` units is rounded by at most half a step there.
pub proof fn lemma_ratio_error(n: nat, d: nat, k: nat)
    requires
        d > 0,
        54 <= k <= 1900,
        n < pow2(k) * d,
    ensures
        nearest(n, d) < INFINITY_BITS,
        units(nearest(n, d)) * d - n <= d * pow2((k - 54) as nat),
        n - units(nearest(n, d)) * d <= d * pow2((k - 54) as nat),
{
    let v = n / d;
    lemma_fundamental_div_mod(n as int, d as int);
    assert(v < pow2(k)) by (nonlinear_arith)
        requires
            n < pow2(k) * d,
            n == d * v + n % d,
            n % d >= 0,
            d > 0,
    ;
    lemma_digits_at_most(v, k);
    let s = crate::rounding::excess(v);
    let unit = pow2(s);
    lemma_pow2_pos(s);
    let step = d * unit;
    assert(step > 0) by (nonlinear_arith)
        requires
            step == d * unit,
            d > 0,
            unit > 0,
    ;
    crate::rounding::lemma_significand_range(n, d);
    let m = crate::rounding::half_even(n, step);
    lemma_units_of_encoded(s, m);
    lemma_fundamental_div_mod(n as int, step as int);
    vstd::arithmetic::div_mod::lemma_mod_bound(n as int, step as int);
    let q = n / step;
    let r = n % step;
    assert(2 * (m * step - n) <= step && 2 * (n - m * step) <= step) by (nonlinear_arith)
        requires
            n == step * q + r,
            0 <= r < step,
            (m == q && 2 * r <= step) || (m == q + 1 && 2 * r >= step),
    ;
    let half = pow2((k - 54) as nat);
    lemma_pow2_unfold((k - 53) as nat);
    if s < k - 53 {
        lemma_pow2_strictly_increases(s, (k - 53) as nat);
    }
    assert(m * step == (m * unit) * d) by (nonlinear_arith)
        requires
            step == d * unit,
    ;
    assert(step <= 2 * (d * half)) by (nonlinear_arith)
        requires
            step == d * unit,
            unit <= 2 * half,
            d > 0,
    ;
}

/// Integers below `2^53` are doubles: rounding leaves them as they are.
pub proof fn lemma_count_is_exact(n: nat)
    requires
        n < 2 * HIDDEN_BIT,
    ensures
        of_nat(n).finite(),
        !of_nat(n).negative(),
        of_nat(n).value() == n * pow2(1074),
{
    let k = pow2(1074);
    lemma_pow2_pos(1074);
    lemma2_to64();
    lemma2_to64_rest();
    if n == 0 {
        assert(0 * k == 0);
        assert(units(0) == 0) by (nonlinear_arith);
        lemma_nearest_bound(0, 1, 0);
    } else {
        lemma_nearest_within(n * k, n, 1074);
        let m = nearest(n * k, 1);
        // The number of a given length is a multiple of its last place.
        let w = n * k;
        lemma_bits_in(n);
        lemma_digits_at_most(n, 53);
        lemma_bits_in_shl(n, 1074);
        vstd::arithmetic::div_mod::lemma_div_basics(w as int);
        let s = crate::rounding::excess(w);
        lemma_exact_significand(n, 1074, s);
        assert(1 * pow2(s) == pow2(s));
        let c = n * pow2((1074 - s) as nat);
        lemma_pow2_adds((1074 - s) as nat, s);
        assert(c * pow2(s) == w) by (nonlinear_arith)
            requires
                c == n * pow2((1074 - s) as nat),
                w == n * k,
                k == pow2((1074 - s) as nat) * pow2(s),
        ;
        crate::rounding::lemma_significand_range(w, 1);
        lemma_units_of_encoded(s, c);
        assert(units(m) == w);
    }
}

/// One more than a count is the next count.
pub proof fn lemma_next_count(n: nat)
    requires
        n < HIDDEN_BIT,
    ensures
        sum(one(), of_nat(n)) == of_nat(n + 1),
{
    lemma_one_value();
    lemma_count_is_exact(n);
    lemma_pow2_pos(1074);
    let k = pow2(1074);
    assert(k + n * k == (n + 1) * k) by (nonlinear_arith);
    assert((n + 1) * k > 0) by (nonlinear_arith)
        requires
            k > 0,
    ;
}

/// Rounding to a double moves a number by at most one part in `2^53`.
pub proof fn lemma_relative_error(v: nat)
    requires
        v < pow2(1900),
    ensures
        nearest(v, 1) < INFINITY_BITS,
        0x20_0000_0000_0000 * (units(nearest(v, 1)) - v) <= v,
        0x20_0000_0000_0000 * (v - units(nearest(v, 1))) <= v,
{
    lemma2_to64();
    lemma2_to64_rest();
    lemma_bits_in(v);
    lemma_digits_at_most(v, 1900);
    let b = bits_in(v);
    if b >= 54 {
        lemma_nearest_error(v, b);
        lemma_pow2_adds(53, (b - 54) as nat);
    } else {
        vstd::arithmetic::div_mod::lemma_div_basics(v as int);
        assert(v / 1 == v);
        assert(pow2(0) == 1);
        assert(v * 1 == v && 1 * pow2(0) == 1);
        lemma_exact_significand(v, 0, 0);
        crate::rounding::lemma_significand_range(v, 1);
        lemma_units_of_encoded(0, v);
    }
}

} // verus!
