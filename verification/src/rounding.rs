//! Rounding of exact quotients to 53-bit significands, ties to even.

use vstd::prelude::*;
use vstd::arithmetic::div_mod::{lemma_fundamental_div_mod, lemma_fundamental_div_mod_converse};
use vstd::arithmetic::power2::{
    lemma2_to64, lemma2_to64_rest, lemma_pow2_adds, lemma_pow2_pos, lemma_pow2_strictly_increases,
    lemma_pow2_unfold, pow2,
};

verus! {

/// Encoding of infinity, without its sign.
pub const INFINITY_BITS: u64 = 0x7ff0_0000_0000_0000;

/// `2^52`, the first significand with all 53 bits in use.
pub const HIDDEN_BIT: u64 = 0x0010_0000_0000_0000;

/// Number of binary digits of `n`.
pub open spec fn bits_in(n: nat) -> nat
    decreases n,
{
    if n == 0 {
        0
    } else {
        1 + bits_in(n / 2)
    }
}

/// `n / d` to the nearest integer, a tie going to the even neighbour.
pub open spec fn half_even(n: nat, d: nat) -> nat {
    let q = n / d;
    let r = n % d;
    if 2 * r < d || (2 * r == d && q % 2 == 0) {
        q
    } else {
        q + 1
    }
}

/// How many low digits of an integer do not fit a 53-bit significand.
pub open spec fn excess(q: nat) -> nat {
    if bits_in(q) > 53 {
        (bits_in(q) - 53) as nat
    } else {
        0
    }
}

/// The encoding, without sign, of the double nearest to `n / d` smallest units (`2^-1074` each).
pub open spec fn nearest(n: nat, d: nat) -> u64 {
    let s = excess(n / d);
    let encoded = s * HIDDEN_BIT + half_even(n, d * pow2(s));
    if encoded >= INFINITY_BITS {
        INFINITY_BITS
    } else {
        encoded as u64
    }
}

/// `x * 2^k` for `k >= 0`, else `x`.
pub open spec fn scaled_up(x: nat, k: int) -> nat {
    if k >= 0 {
        x * pow2(k as nat)
    } else {
        x
    }
}

/// `y * 2^-k` for `k < 0`, else `y`.
pub open spec fn scaled_down(y: nat, k: int) -> nat {
    if k >= 0 {
        y
    } else {
        y * pow2((-k) as nat)
    }
}

/// `bits_in(n)` is the exponent of the first power of two above `n`.
pub proof fn lemma_bits_in(n: nat)
    ensures
        n < pow2(bits_in(n)),
        n > 0 ==> bits_in(n) > 0 && pow2((bits_in(n) - 1) as nat) <= n,
    decreases n,
{
    if n == 0 {
        lemma_pow2_pos(0);
    } else {
        lemma_bits_in(n / 2);
        lemma_pow2_unfold(bits_in(n));
        if n / 2 > 0 {
            lemma_pow2_unfold((bits_in(n) - 1) as nat);
        } else {
            assert(bits_in(0) == 0);
            assert(bits_in(n) == 1);
            lemma2_to64();
        }
    }
}

/// A number between two neighbouring powers of two has that many digits.
pub proof fn lemma_bits_in_unique(n: nat, len: nat)
    requires
        len > 0,
        pow2((len - 1) as nat) <= n < pow2(len),
    ensures
        bits_in(n) == len,
{
    lemma_pow2_pos((len - 1) as nat);
    lemma_bits_in(n);
    let b = bits_in(n);
    if b < len {
        if b < len - 1 {
            lemma_pow2_strictly_increases(b, (len - 1) as nat);
        }
    } else if b > len {
        if len < b - 1 {
            lemma_pow2_strictly_increases(len, (b - 1) as nat);
        }
    }
}

/// Multiplying by a power of two appends digits.
pub proof fn lemma_bits_in_shl(n: nat, k: nat)
    requires
        n > 0,
    ensures
        bits_in(n * pow2(k)) == bits_in(n) + k,
{
    lemma_bits_in(n);
    let len = bits_in(n);
    lemma_pow2_adds(len, k);
    lemma_pow2_adds((len - 1) as nat, k);
    lemma_pow2_pos(k);
    assert(pow2((len - 1) as nat) * pow2(k) <= n * pow2(k) < pow2(len) * pow2(k))
        by (nonlinear_arith)
        requires
            pow2((len - 1) as nat) <= n < pow2(len),
            pow2(k) > 0,
    ;
    lemma_bits_in_unique(n * pow2(k), len + k);
}

/// Dividing by a power of two drops digits.
proof fn lemma_bits_in_shr(n: nat, k: nat)
    requires
        n > 0,
    ensures
        bits_in(n / pow2(k)) == if bits_in(n) > k {
            (bits_in(n) - k) as nat
        } else {
            0
        },
{
    lemma_bits_in(n);
    lemma_pow2_pos(k);
    let len = bits_in(n);
    let d = pow2(k);
    let q = n / d;
    lemma_fundamental_div_mod(n as int, d as int);
    if len > k {
        let rest = (len - k) as nat;
        lemma_pow2_adds(rest, k);
        lemma_pow2_adds((rest - 1) as nat, k);
        let a = pow2((rest - 1) as nat);
        let b = pow2(rest);
        assert(a <= q < b) by (nonlinear_arith)
            requires
                n == d * q + n % d,
                0 <= n % d < d,
                a * d <= n,
                n < b * d,
        ;
        lemma_bits_in_unique(q, rest);
    } else {
        if len < k {
            lemma_pow2_strictly_increases(len, k);
        }
        assert(q == 0) by (nonlinear_arith)
            requires
                n == d * q + n % d,
                0 <= n % d,
                n < d,
                0 <= q,
        ;
    }
}

/// Quotient and remainder do not see a common factor.
proof fn lemma_div_scale(c: nat, n: nat, d: nat)
    requires
        c > 0,
        d > 0,
    ensures
        (c * n) / (c * d) == n / d,
        (c * n) % (c * d) == c * (n % d),
        c * d > 0,
{
    lemma_fundamental_div_mod(n as int, d as int);
    let q = n / d;
    let r = n % d;
    assert(c * d > 0) by (nonlinear_arith)
        requires
            c > 0,
            d > 0,
    ;
    assert(c * n == q * (c * d) + c * r && c * r < c * d) by (nonlinear_arith)
        requires
            n == d * q + r,
            0 <= r < d,
            c > 0,
    ;
    assert(0 <= c * r) by (nonlinear_arith)
        requires
            c > 0,
            r >= 0,
    ;
    lemma_fundamental_div_mod_converse((c * n) as int, (c * d) as int, q as int, (c * r) as int);
}

/// Rounding does not see a common factor.
pub proof fn lemma_half_even_scale(c: nat, n: nat, d: nat)
    requires
        c > 0,
        d > 0,
    ensures
        half_even(c * n, c * d) == half_even(n, d),
{
    lemma_div_scale(c, n, d);
    let r = n % d;
    assert((2 * (c * r) < c * d) == (2 * r < d)) by (nonlinear_arith)
        requires
            c > 0,
    ;
    assert((2 * (c * r) == c * d) == (2 * r == d)) by (nonlinear_arith)
        requires
            c > 0,
    ;
}

/// The nearest double depends on the quotient only.
pub proof fn lemma_nearest_scale(c: nat, n: nat, d: nat)
    requires
        c > 0,
        d > 0,
    ensures
        nearest(c * n, c * d) == nearest(n, d),
{
    lemma_div_scale(c, n, d);
    let s = excess(n / d);
    lemma_pow2_pos(s);
    assert(c * (d * pow2(s)) == (c * d) * pow2(s)) by (nonlinear_arith);
    assert(d * pow2(s) > 0) by (nonlinear_arith)
        requires
            d > 0,
            pow2(s) > 0,
    ;
    lemma_half_even_scale(c, n, d * pow2(s));
}

/// Rounding `x / (y * 2^t)` needs only the integer quotient and whether it was exact.
proof fn lemma_half_even_sticky(x: nat, y: nat, q0: nat, t: nat)
    requires
        y > 0,
        t > 0,
        q0 == x / y,
    ensures
        half_even(x, y * pow2(t)) == ({
            let q = q0 / pow2(t);
            let low = q0 % pow2(t);
            let half = pow2((t - 1) as nat);
            let inexact = x % y != 0;
            if low < half || (low == half && !inexact && q % 2 == 0) {
                q
            } else {
                q + 1
            }
        }),
{
    let d = pow2(t);
    let half = pow2((t - 1) as nat);
    lemma_pow2_unfold(t);
    lemma_pow2_pos(t);
    let q = q0 / d;
    let low = q0 % d;
    let r0 = x % y;
    lemma_fundamental_div_mod(x as int, y as int);
    lemma_fundamental_div_mod(q0 as int, d as int);
    let rem = low * y + r0;
    assert(x == (y * d) * q + rem && 0 <= rem < y * d) by (nonlinear_arith)
        requires
            x == y * q0 + r0,
            q0 == d * q + low,
            0 <= low < d,
            0 <= r0 < y,
            rem == low * y + r0,
    ;
    assert(x == q * (y * d) + rem) by (nonlinear_arith)
        requires
            x == (y * d) * q + rem,
    ;
    lemma_fundamental_div_mod_converse(x as int, (y * d) as int, q as int, rem as int);
    if low < half {
        assert(2 * rem < y * d) by (nonlinear_arith)
            requires
                rem == low * y + r0,
                r0 < y,
                low + 1 <= half,
                d == 2 * half,
        ;
    } else if low > half {
        assert(2 * rem > y * d) by (nonlinear_arith)
            requires
                rem == low * y + r0,
                r0 >= 0,
                y > 0,
                low >= half + 1,
                d == 2 * half,
        ;
    } else {
        assert(2 * rem == y * d + 2 * r0) by (nonlinear_arith)
            requires
                rem == low * y + r0,
                low == half,
                d == 2 * half,
        ;
    }
}

/// The digits of the scaled quotient.
proof fn lemma_scaled_digits(x: nat, y: nat, q0: nat, k: int)
    requires
        y > 0,
        q0 == x / y,
        q0 > 0,
        k > 0 ==> x % y == 0 || bits_in(q0) >= 54,
    ensures
        excess(scaled_up(x, k) / scaled_down(y, k)) == if bits_in(q0) + k > 53 {
            (bits_in(q0) + k - 53) as nat
        } else {
            0
        },
{
    lemma_fundamental_div_mod(x as int, y as int);
    let r0 = x % y;
    if k >= 0 {
        let c = pow2(k as nat);
        lemma_pow2_pos(k as nat);
        let n = x * c;
        let quot = n / y;
        lemma_bits_in(q0);
        lemma_bits_in_shl(q0, k as nat);
        lemma_fundamental_div_mod(n as int, y as int);
        // q0 * c <= n / y < (q0 + 1) * c
        assert(q0 * c <= quot < (q0 + 1) * c) by (nonlinear_arith)
            requires
                n == x * c,
                x == y * q0 + r0,
                0 <= r0 < y,
                n == y * quot + n % y,
                0 <= n % y < y,
                c > 0,
        ;
        let len = bits_in(q0);
        lemma_pow2_adds(len, k as nat);
        lemma_pow2_adds((len - 1) as nat, k as nat);
        assert((q0 + 1) * c <= pow2(len) * c) by (nonlinear_arith)
            requires
                q0 + 1 <= pow2(len),
                c > 0,
        ;
        assert(pow2((len - 1) as nat) * c <= q0 * c) by (nonlinear_arith)
            requires
                pow2((len - 1) as nat) <= q0,
                c > 0,
        ;
        lemma_bits_in_unique(quot, (len + k) as nat);
    } else {
        let j = (-k) as nat;
        lemma_pow2_pos(j);
        vstd::arithmetic::div_mod::lemma_div_denominator(x as int, y as int, pow2(j) as int);
        lemma_bits_in_shr(q0, j);
    }
}

/// The significand of the scaled quotient, shifted right by `t`.
proof fn lemma_scaled_significand(x: nat, y: nat, k: int, s: nat)
    requires
        y > 0,
        s >= k,
    ensures
        half_even(scaled_up(x, k), scaled_down(y, k) * pow2(s)) == half_even(
            x,
            y * pow2((s - k) as nat),
        ),
{
    let t = (s - k) as nat;
    lemma_pow2_pos(t);
    lemma_pow2_pos(s);
    if k >= 0 {
        let c = pow2(k as nat);
        lemma_pow2_pos(k as nat);
        lemma_pow2_adds(k as nat, t);
        assert(y * pow2(t) > 0) by (nonlinear_arith)
            requires
                y > 0,
                pow2(t) > 0,
        ;
        lemma_half_even_scale(c, x, y * pow2(t));
        assert(c * x == x * c) by (nonlinear_arith);
        assert(c * (y * pow2(t)) == y * (c * pow2(t))) by (nonlinear_arith);
    } else {
        let j = (-k) as nat;
        lemma_pow2_adds(j, s);
        assert((y * pow2(j)) * pow2(s) == y * (pow2(j) * pow2(s))) by (nonlinear_arith);
    }
}

/// A quotient shifted left is exact when it was.
pub proof fn lemma_exact_significand(x: nat, k: nat, s: nat)
    requires
        s <= k,
    ensures
        half_even(x * pow2(k), pow2(s)) == x * pow2((k - s) as nat),
{
    let d = pow2(s);
    let w = x * pow2((k - s) as nat);
    lemma_pow2_pos(s);
    lemma_pow2_adds(s, (k - s) as nat);
    assert(x * pow2(k) == w * d + 0) by (nonlinear_arith)
        requires
            w == x * pow2((k - s) as nat),
            pow2(k) == d * pow2((k - s) as nat),
    ;
    lemma_fundamental_div_mod_converse((x * pow2(k)) as int, d as int, w as int, 0);
}

/// Number of binary digits of `p`.
fn digits(p: u128) -> (r: u32)
    ensures
        r == bits_in(p as nat),
        r <= 128,
{
    let mut rest: u128 = p;
    let mut n: u32 = 0;
    proof {
        lemma_bits_in(p as nat);
        lemma_u128_digits(p);
    }
    while rest != 0
        invariant
            n + bits_in(rest as nat) == bits_in(p as nat),
            bits_in(p as nat) <= 128,
        decreases rest,
    {
        assert(bits_in(rest as nat) == 1 + bits_in((rest / 2) as nat));
        rest = rest / 2;
        n = n + 1;
    }
    assert(bits_in(0) == 0);
    n
}

proof fn lemma_u128_digits(p: u128)
    ensures
        bits_in(p as nat) <= 128,
{
    lemma_bits_in(p as nat);
    lemma2_to64();
    lemma_pow2_adds(64, 64);
    assert(pow2(128) == u128::MAX + 1) by {
        assert(0x1_0000_0000_0000_0000int * 0x1_0000_0000_0000_0000int == u128::MAX + 1);
    }
    if bits_in(p as nat) > 128 {
        if 128 < bits_in(p as nat) - 1 {
            lemma_pow2_strictly_increases(128, (bits_in(p as nat) - 1) as nat);
        }
    }
}

/// `2^t`.
fn power_of_two(t: u32) -> (r: u128)
    requires
        t < 128,
    ensures
        r == pow2(t as nat),
{
    proof {
        lemma2_to64();
        lemma2_to64_rest();
        lemma_pow2_adds(64, 63);
        assert(0x1_0000_0000_0000_0000int * 0x8000_0000_0000_0000int <= u128::MAX);
        assert(pow2(127) <= u128::MAX);
    }
    let mut r: u128 = 1;
    let mut i: u32 = 0;
    while i < t
        invariant
            i <= t < 128,
            r == pow2(i as nat),
            pow2(127) <= u128::MAX,
        decreases t - i,
    {
        proof {
            lemma_pow2_unfold((i + 1) as nat);
            if i + 1 < 127 {
                lemma_pow2_strictly_increases((i + 1) as nat, 127);
            }
        }
        r = r * 2;
        i = i + 1;
    }
    r
}

/// The encoding of the double nearest to `x / y * 2^k` smallest units, from the integer
/// quotient `q0` of `x / y` and whether anything was left over.
pub fn round_quotient(
    q0: u128,
    inexact: bool,
    k: i32,
    Ghost(x): Ghost<nat>,
    Ghost(y): Ghost<nat>,
) -> (r: u64)
    requires
        y > 0,
        q0 == x / y,
        inexact == (x % y != 0),
        inexact ==> bits_in(q0 as nat) >= 55,
        bits_in(q0 as nat) <= 127,
        -3000 <= k <= 3900,
    ensures
        r == nearest(scaled_up(x, k as int), scaled_down(y, k as int)),
{
    let ghost n = scaled_up(x, k as int);
    let ghost d = scaled_down(y, k as int);
    proof {
        lemma_fundamental_div_mod(x as int, y as int);
        if k < 0 {
            lemma_pow2_pos((-k) as nat);
            assert(y * pow2((-k) as nat) > 0) by (nonlinear_arith)
                requires
                    y > 0,
                    pow2((-k) as nat) > 0,
            ;
        }
    }
    if q0 == 0 {
        proof {
            assert(x == 0) by (nonlinear_arith)
                requires
                    x == y * (q0 as nat) + x % y,
                    q0 == 0,
                    x % y == 0,
            ;
            assert(n == 0);
            lemma2_to64();
            lemma_fundamental_div_mod_converse(0, d as int, 0, 0);
            assert(excess(0) == 0);
            assert(d * pow2(0) == d) by (nonlinear_arith)
                requires
                    pow2(0) == 1,
            ;
            assert(0nat / d == 0 && 0nat % d == 0);
            assert(half_even(0, d) == 0);
        }
        return 0;
    }
    let len: u32 = digits(q0);
    let top: i32 = len as i32 + k - 53;
    let s: i32 = if top > 0 {
        top
    } else {
        0
    };
    let t: i32 = s - k;
    proof {
        lemma_scaled_digits(x, y, q0 as nat, k as int);
        lemma_bits_in(q0 as nat);
        assert(excess(n / d) == s);
    }
    let m: u64;
    if t <= 0 {
        // Everything fits: the significand is the quotient shifted left.
        proof {
            assert(!inexact);
            lemma2_to64_rest();
            lemma_pow2_adds(len as nat, (-t) as nat);
            if len - t < 53 {
                lemma_pow2_strictly_increases((len - t) as nat, 53);
            }
            let c = pow2((-t) as nat);
            lemma_pow2_pos((-t) as nat);
            assert(q0 * c < pow2(len as nat) * c) by (nonlinear_arith)
                requires
                    q0 < pow2(len as nat),
                    c > 0,
            ;
            assert(0 <= q0 * c) by (nonlinear_arith)
                requires
                    c > 0,
                    q0 >= 0,
            ;
            assert(x == y * q0);
            // x / y * 2^k with nothing left over is q0 * 2^k
            lemma_nearest_exact(x, y, q0 as nat, k as nat, s as nat);
        }
        m = (q0 * power_of_two((-t) as u32)) as u64;
    } else if t > len as i32 {
        proof {
            lemma_scaled_significand(x, y, k as int, s as nat);
            lemma_half_even_sticky(x, y, q0 as nat, t as nat);
            lemma_pow2_pos(t as nat);
            if len < t - 1 {
                lemma_pow2_strictly_increases(len as nat, (t - 1) as nat);
            }
            lemma_pow2_unfold(t as nat);
            lemma_fundamental_div_mod_converse(
                q0 as int,
                pow2(t as nat) as int,
                0,
                q0 as int,
            );
        }
        m = 0;
    } else {
        let unit: u128 = power_of_two(t as u32);
        let half: u128 = power_of_two((t - 1) as u32);
        proof {
            lemma_pow2_pos(t as nat);
        }
        let q: u128 = q0 / unit;
        let low: u128 = q0 % unit;
        proof {
            lemma_scaled_significand(x, y, k as int, s as nat);
            lemma_half_even_sticky(x, y, q0 as nat, t as nat);
            lemma_bits_in_shr(q0 as nat, t as nat);
            lemma_bits_in(q as nat);
            lemma2_to64_rest();
            if bits_in(q as nat) < 53 {
                lemma_pow2_strictly_increases(bits_in(q as nat), 53);
            }
        }
        if low < half || (low == half && !inexact && q % 2 == 0) {
            m = q as u64;
        } else {
            m = (q + 1) as u64;
        }
    }
    assert(m == half_even(n, d * pow2(s as nat)));
    assert(m <= 0x0020_0000_0000_0000);
    let encoded: u64 = s as u64 * HIDDEN_BIT + m;
    if encoded >= INFINITY_BITS {
        INFINITY_BITS
    } else {
        encoded
    }
}

/// An exact quotient keeps all its digits.
proof fn lemma_nearest_exact(x: nat, y: nat, q0: nat, k: nat, s: nat)
    requires
        y > 0,
        x == y * q0,
        s <= k,
    ensures
        half_even(x * pow2(k), y * pow2(s)) == q0 * pow2((k - s) as nat),
{
    lemma_pow2_pos(s);
    lemma_half_even_scale(y, q0 * pow2(k), pow2(s));
    assert(y * (q0 * pow2(k)) == x * pow2(k)) by (nonlinear_arith)
        requires
            x == y * q0,
    ;
    lemma_exact_significand(q0, k, s);
}

/// Powers of two above and below the line cancel.
pub proof fn lemma_nearest_shift(x: nat, y: nat, a: nat, b: nat)
    requires
        y > 0,
    ensures
        nearest(x * pow2(a), y * pow2(b)) == nearest(scaled_up(x, a - b), scaled_down(y, a - b)),
{
    if a >= b {
        let c = pow2(b);
        lemma_pow2_pos(b);
        lemma_pow2_adds(b, (a - b) as nat);
        assert(c * (x * pow2((a - b) as nat)) == x * (c * pow2((a - b) as nat)))
            by (nonlinear_arith);
        assert(c * y == y * c) by (nonlinear_arith);
        lemma_nearest_scale(c, x * pow2((a - b) as nat), y);
    } else {
        let c = pow2(a);
        let j = (b - a) as nat;
        lemma_pow2_pos(a);
        lemma_pow2_pos(j);
        lemma_pow2_adds(a, j);
        assert(c * (y * pow2(j)) == y * (c * pow2(j))) by (nonlinear_arith);
        assert(c * x == x * c) by (nonlinear_arith);
        assert(y * pow2(j) > 0) by (nonlinear_arith)
            requires
                y > 0,
                pow2(j) > 0,
        ;
        lemma_nearest_scale(c, x, y * pow2(j));
    }
}

/// A value far below the last digit of a full significand changes nothing.
pub proof fn lemma_nearest_absorbs(m: nat, s: nat, delta: int)
    requires
        HIDDEN_BIT <= m < 2 * HIDDEN_BIT,
        s >= 2,
        -pow2((s - 2) as nat) < delta < pow2((s - 2) as nat),
        s * HIDDEN_BIT + m < INFINITY_BITS,
    ensures
        m * pow2(s) + delta > 0,
        nearest((m * pow2(s) + delta) as nat, 1) == s * HIDDEN_BIT + m,
{
    let w = pow2((s - 2) as nat);
    lemma_pow2_pos((s - 2) as nat);
    lemma_pow2_unfold(s);
    lemma_pow2_unfold((s - 1) as nat);
    lemma2_to64_rest();
    let unit = pow2(s);
    assert(unit == 4 * w);
    lemma_pow2_adds(52, s);
    lemma_pow2_adds(53, s);
    let n = m * unit + delta;
    assert(n > 0) by (nonlinear_arith)
        requires
            n == m * unit + delta,
            m >= 1,
            unit == 4 * w,
            -w < delta,
            w > 0,
    ;
    assert(n / 1 == n) by {
        vstd::arithmetic::div_mod::lemma_div_basics(n);
    }
    if delta >= 0 {
        assert(pow2(52) * unit <= n < pow2(53) * unit) by (nonlinear_arith)
            requires
                n == m * unit + delta,
                pow2(52) <= m,
                m + 1 <= pow2(53),
                0 <= delta < unit,
        ;
        lemma_bits_in_unique(n as nat, 53 + s);
        lemma_fundamental_div_mod_converse(n, unit as int, m as int, delta);
    } else if m > HIDDEN_BIT {
        assert(pow2(52) * unit <= n < pow2(53) * unit) by (nonlinear_arith)
            requires
                n == m * unit + delta,
                pow2(52) + 1 <= m,
                m < pow2(53),
                -unit < delta < 0,
        ;
        lemma_bits_in_unique(n as nat, 53 + s);
        assert(n == (m - 1) * unit + (unit + delta)) by (nonlinear_arith)
            requires
                n == m * unit + delta,
        ;
        lemma_fundamental_div_mod_converse(n, unit as int, m - 1, unit + delta);
    } else {
        let low = pow2((s - 1) as nat);
        lemma_pow2_adds(52, (s - 1) as nat);
        lemma_pow2_adds(51, s);
        assert(pow2(51) * unit <= n < pow2(52) * unit) by (nonlinear_arith)
            requires
                n == m * unit + delta,
                m == pow2(52),
                pow2(52) == 2 * pow2(51),
                pow2(51) >= 1,
                -unit < delta < 0,
                unit > 0,
        ;
        lemma_bits_in_unique(n as nat, 52 + s);
        let q = 2 * m - 1;
        assert(n == q * low + (low + delta)) by (nonlinear_arith)
            requires
                n == m * unit + delta,
                unit == 2 * low,
                q == 2 * m - 1,
        ;
        lemma_fundamental_div_mod_converse(n, low as int, q, low + delta);
        assert((s - 1) * HIDDEN_BIT + (q + 1) == s * HIDDEN_BIT + m);
    }
}

/// Larger quotients have larger integer parts.
proof fn lemma_quotient_monotone(n1: nat, d1: nat, n2: nat, d2: nat)
    requires
        d1 > 0,
        d2 > 0,
        n1 * d2 <= n2 * d1,
    ensures
        n1 / d1 <= n2 / d2,
{
    lemma_fundamental_div_mod(n1 as int, d1 as int);
    lemma_fundamental_div_mod(n2 as int, d2 as int);
    let q1 = n1 / d1;
    let q2 = n2 / d2;
    let r1 = n1 % d1;
    let r2 = n2 % d2;
    if q1 >= q2 + 1 {
        let w = q2 + 1;
        assert(n1 * d2 >= (d1 * w) * d2) by (nonlinear_arith)
            requires
                n1 == d1 * q1 + r1,
                r1 >= 0,
                q1 >= w,
                d1 > 0,
                d2 > 0,
        ;
        assert(n2 < d2 * w) by (nonlinear_arith)
            requires
                n2 == d2 * q2 + r2,
                r2 < d2,
                w == q2 + 1,
        ;
        assert(n2 * d1 < (d2 * w) * d1) by (nonlinear_arith)
            requires
                n2 < d2 * w,
                d1 > 0,
        ;
        assert((d1 * w) * d2 == (d2 * w) * d1) by (nonlinear_arith);
    }
}

/// Rounding keeps the order of quotients.
proof fn lemma_half_even_monotone(n1: nat, d1: nat, n2: nat, d2: nat)
    requires
        d1 > 0,
        d2 > 0,
        n1 * d2 <= n2 * d1,
    ensures
        half_even(n1, d1) <= half_even(n2, d2),
{
    lemma_quotient_monotone(n1, d1, n2, d2);
    let q1 = n1 / d1;
    let q2 = n2 / d2;
    if q1 == q2 {
        lemma_fundamental_div_mod(n1 as int, d1 as int);
        lemma_fundamental_div_mod(n2 as int, d2 as int);
        let r1 = n1 % d1;
        let r2 = n2 % d2;
        assert(r1 * d2 <= r2 * d1) by (nonlinear_arith)
            requires
                n1 * d2 <= n2 * d1,
                n1 == d1 * q1 + r1,
                n2 == d2 * q1 + r2,
        ;
        if 2 * r2 < d2 {
            assert(2 * r1 < d1) by (nonlinear_arith)
                requires
                    r1 * d2 <= r2 * d1,
                    2 * r2 < d2,
                    d1 > 0,
                    d2 > 0,
                    r1 >= 0,
                    r2 >= 0,
            ;
        } else if 2 * r2 == d2 {
            assert(2 * r1 <= d1) by (nonlinear_arith)
                requires
                    r1 * d2 <= r2 * d1,
                    2 * r2 == d2,
                    d1 > 0,
                    d2 > 0,
            ;
        }
    }
}

/// Larger quotients have larger encodings.
pub proof fn lemma_nearest_monotone(n1: nat, d1: nat, n2: nat, d2: nat)
    requires
        d1 > 0,
        d2 > 0,
        n1 * d2 <= n2 * d1,
    ensures
        nearest(n1, d1) <= nearest(n2, d2),
{
    lemma_quotient_monotone(n1, d1, n2, d2);
    let q1 = n1 / d1;
    let q2 = n2 / d2;
    lemma_bits_in(q1);
    lemma_bits_in(q2);
    if q1 > 0 && bits_in(q1) > bits_in(q2) {
        if bits_in(q2) < bits_in(q1) - 1 {
            lemma_pow2_strictly_increases(bits_in(q2), (bits_in(q1) - 1) as nat);
        }
    }
    let s1 = excess(q1);
    let s2 = excess(q2);
    lemma_pow2_pos(s1);
    lemma_pow2_pos(s2);
    let c1 = pow2(s1);
    let c2 = pow2(s2);
    assert(d1 * c1 > 0 && d2 * c2 > 0) by (nonlinear_arith)
        requires
            d1 > 0,
            d2 > 0,
            c1 > 0,
            c2 > 0,
    ;
    if s1 == s2 {
        assert(n1 * (d2 * c1) <= n2 * (d1 * c1)) by (nonlinear_arith)
            requires
                n1 * d2 <= n2 * d1,
                c1 > 0,
        ;
        lemma_half_even_monotone(n1, d1 * c1, n2, d2 * c2);
    } else {
        lemma_significand_range(n1, d1);
        lemma_significand_range(n2, d2);
        let e1 = s1 * HIDDEN_BIT + half_even(n1, d1 * c1);
        let e2 = s2 * HIDDEN_BIT + half_even(n2, d2 * c2);
        assert(e1 <= e2) by (nonlinear_arith)
            requires
                e1 == s1 * HIDDEN_BIT + half_even(n1, d1 * c1),
                e2 == s2 * HIDDEN_BIT + half_even(n2, d2 * c2),
                half_even(n1, d1 * c1) <= 2 * HIDDEN_BIT,
                half_even(n2, d2 * c2) >= HIDDEN_BIT,
                s1 + 1 <= s2,
        ;
    }
}

/// A rounded significand has at most 53 digits or is the next power of two, and exactly 53 when
/// digits were dropped.
pub proof fn lemma_significand_range(n: nat, d: nat)
    requires
        d > 0,
    ensures
        half_even(n, d * pow2(excess(n / d))) <= 2 * HIDDEN_BIT,
        excess(n / d) > 0 ==> half_even(n, d * pow2(excess(n / d))) >= HIDDEN_BIT,
{
    let q = n / d;
    let s = excess(q);
    lemma_pow2_pos(s);
    lemma_bits_in(q);
    lemma2_to64_rest();
    vstd::arithmetic::div_mod::lemma_div_denominator(n as int, d as int, pow2(s) as int);
    if q > 0 {
        lemma_bits_in_shr(q, s);
        let w = q / pow2(s);
        lemma_bits_in(w);
        if bits_in(w) < 53 {
            lemma_pow2_strictly_increases(bits_in(w), 53);
        }
    } else {
        assert(bits_in(0) == 0);
        lemma2_to64();
        assert(q / pow2(s) == 0) by (nonlinear_arith)
            requires
                q == 0,
                pow2(s) == 1,
        ;
    }
}

} // verus!
