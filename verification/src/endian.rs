//! Integers as byte strings, in either byte order.

use vstd::prelude::*;

verus! {

/// Order of the bytes of an integer in memory.
#[derive(Debug, Clone, Copy, PartialEq, Eq, Structural)]
pub enum ByteOrder {
    Little,
    Big,
}

/// The number written by little-endian bytes.
pub open spec fn le_value(bytes: Seq<u8>) -> nat
    decreases bytes.len(),
{
    if bytes.len() == 0 {
        0
    } else {
        bytes[0] as nat + 256 * le_value(bytes.drop_first())
    }
}

/// `n` little-endian bytes of a number.
pub open spec fn le_bytes(x: nat, n: nat) -> Seq<u8>
    decreases n,
{
    if n == 0 {
        Seq::empty()
    } else {
        seq![(x % 256) as u8] + le_bytes(x / 256, (n - 1) as nat)
    }
}

/// The number written by bytes in the given order.
pub open spec fn value_in(order: ByteOrder, bytes: Seq<u8>) -> nat {
    match order {
        ByteOrder::Little => le_value(bytes),
        ByteOrder::Big => le_value(bytes.reverse()),
    }
}

/// `n` bytes of a number in the given order.
pub open spec fn bytes_in(order: ByteOrder, x: nat, n: nat) -> Seq<u8> {
    match order {
        ByteOrder::Little => le_bytes(x, n),
        ByteOrder::Big => le_bytes(x, n).reverse(),
    }
}

/// `256^n`.
pub open spec fn byte_range(n: nat) -> nat
    decreases n,
{
    if n == 0 {
        1
    } else {
        256 * byte_range((n - 1) as nat)
    }
}

pub proof fn lemma_le_bytes_len(x: nat, n: nat)
    ensures
        le_bytes(x, n).len() == n,
    decreases n,
{
    if n > 0 {
        lemma_le_bytes_len(x / 256, (n - 1) as nat);
    }
}

/// Reading back what was written gives the number, if it fits.
pub proof fn lemma_le_round_trip(x: nat, n: nat)
    requires
        x < byte_range(n),
    ensures
        le_value(le_bytes(x, n)) == x,
    decreases n,
{
    if n > 0 {
        lemma_le_round_trip(x / 256, (n - 1) as nat);
        lemma_le_bytes_len(x / 256, (n - 1) as nat);
        assert(le_bytes(x, n).drop_first() =~= le_bytes(x / 256, (n - 1) as nat));
    }
}

/// Integers survive being written and read in the same byte order.
pub proof fn byte_order_round_trips(order: ByteOrder, x: nat, n: nat)
    requires
        x < byte_range(n),
    ensures
        value_in(order, bytes_in(order, x, n)) == x,
        bytes_in(order, x, n).len() == n,
{
    lemma_le_round_trip(x, n);
    lemma_le_bytes_len(x, n);
    assert(le_bytes(x, n).reverse().reverse() =~= le_bytes(x, n));
}

pub proof fn lemma_le_value_bound(bytes: Seq<u8>)
    ensures
        le_value(bytes) < byte_range(bytes.len()),
    decreases bytes.len(),
{
    if bytes.len() > 0 {
        lemma_le_value_bound(bytes.drop_first());
    }
}

/// Distinct numbers that fit are written differently.
pub proof fn lemma_le_bytes_injective(x: nat, y: nat, n: nat)
    requires
        x < byte_range(n),
        y < byte_range(n),
        le_bytes(x, n) == le_bytes(y, n),
    ensures
        x == y,
{
    lemma_le_round_trip(x, n);
    lemma_le_round_trip(y, n);
}

/// Writes the eight little-endian bytes of `x` behind `out`.
pub fn push_u64_le(out: &mut Vec<u8>, x: u64)
    ensures
        final(out)@ == old(out)@ + le_bytes(x as nat, 8),
{
    let mut rest: u64 = x;
    let ghost start = out@;
    assert(start + le_bytes(x as nat, 8) =~= out@ + le_bytes(rest as nat, 8));
    for i in 0..8
        invariant
            start + le_bytes(x as nat, 8) == out@ + le_bytes(rest as nat, (8 - i) as nat),
    {
        let ghost before = out@;
        let ghost tail = le_bytes((rest / 256) as nat, (8 - i - 1) as nat);
        out.push((rest % 256) as u8);
        assert(before + (seq![(rest % 256) as u8] + tail) =~= out@ + tail);
        rest = rest / 256;
    }
    assert(out@ + le_bytes(rest as nat, 0) =~= out@);
}

/// Reads a little-endian number of at most eight bytes.
pub fn read_le(bytes: &[u8]) -> (r: u64)
    requires
        bytes@.len() <= 8,
    ensures
        r == le_value(bytes@),
{
    let n: usize = bytes.len();
    let mut value: u64 = 0;
    let mut i: usize = n;
    proof {
        reveal_with_fuel(byte_range, 9);
    }
    assert(bytes@.skip(n as int) =~= Seq::<u8>::empty());
    while i > 0
        invariant
            n == bytes@.len(),
            i <= n <= 8,
            value == le_value(bytes@.skip(i as int)),
            byte_range(8) == 0x1_0000_0000_0000_0000nat,
        decreases i,
    {
        i = i - 1;
        let ghost rest = bytes@.skip(i as int);
        assert(rest.drop_first() =~= bytes@.skip(i + 1));
        assert(rest[0] == bytes@[i as int]);
        proof {
            lemma_le_value_bound(rest);
            lemma_byte_range_monotone(rest.len(), 8);
        }
        value = bytes[i] as u64 + 256 * value;
    }
    assert(bytes@.skip(0) =~= bytes@);
    value
}

proof fn lemma_byte_range_monotone(a: nat, b: nat)
    requires
        a <= b,
    ensures
        byte_range(a) <= byte_range(b),
        byte_range(a) > 0,
    decreases b,
{
    if a < b {
        lemma_byte_range_monotone(a, (b - 1) as nat);
    } else if b > 0 {
        lemma_byte_range_monotone((a - 1) as nat, (b - 1) as nat);
    }
}

} // verus!
