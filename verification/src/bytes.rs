//! Byte strings: lines, words, numbers.

use vstd::prelude::*;
use vstd::slice::slice_subrange;
use vstd::string::{is_ascii_spec_bytes, StringSliceAdditionalSpecFns};

verus! {

pub const LF: u8 = 0x0a;

pub const CR: u8 = 0x0d;

pub const SPACE: u8 = 0x20;

/// The bytes of a text of ASCII characters.
pub open spec fn ascii(text: Seq<char>) -> Seq<u8> {
    Seq::new(text.len(), |i: int| text[i] as u8)
}

/// The bytes of an ASCII literal.
pub fn ascii_bytes(text: &str) -> (r: &[u8])
    requires
        text.is_ascii(),
    ensures
        r@ == ascii(text@),
{
    proof {
        is_ascii_spec_bytes(text);
        assert(text.spec_bytes() =~= ascii(text@));
    }
    text.as_bytes()
}

/// An ASCII letter in lower case; any other byte as it is.
pub open spec fn lower(b: u8) -> u8 {
    if 0x41 <= b <= 0x5a {
        (b + 0x20) as u8
    } else {
        b
    }
}

/// Equality up to the case of ASCII letters.
pub open spec fn eq_ignoring_case(a: Seq<u8>, b: Seq<u8>) -> bool {
    &&& a.len() == b.len()
    &&& forall|i: int| 0 <= i < a.len() ==> lower(#[trigger] a[i]) == lower(b[i])
}

fn to_lower(b: u8) -> (r: u8)
    ensures
        r == lower(b),
{
    if 0x41 <= b && b <= 0x5a {
        b + 0x20
    } else {
        b
    }
}

/// Compares two byte strings without regard to ASCII case.
pub fn ascii_eq_ci(a: &[u8], b: &[u8]) -> (r: bool)
    ensures
        r == eq_ignoring_case(a@, b@),
{
    if a.len() != b.len() {
        return false;
    }
    let n: usize = a.len();
    for i in 0..n
        invariant
            n == a@.len() == b@.len(),
            forall|j: int| 0 <= j < i ==> lower(#[trigger] a@[j]) == lower(b@[j]),
    {
        if to_lower(a[i]) != to_lower(b[i]) {
            assert(lower(a@[i as int]) != lower(b@[i as int]));
            return false;
        }
    }
    true
}

/// Whether `text` begins with `prefix`.
pub open spec fn begins_with(text: Seq<u8>, prefix: Seq<u8>) -> bool {
    text.len() >= prefix.len() && text.take(prefix.len() as int) == prefix
}

/// Whether `text` ends with `suffix`.
pub open spec fn finishes_with(text: Seq<u8>, suffix: Seq<u8>) -> bool {
    text.len() >= suffix.len() && text.skip(text.len() - suffix.len()) == suffix
}

/// Whether `needle` stands in `hay` at `at`.
pub open spec fn stands_at(hay: Seq<u8>, needle: Seq<u8>, at: int) -> bool {
    &&& 0 <= at
    &&& at + needle.len() <= hay.len()
    &&& hay.subrange(at, at + needle.len()) == needle
}

/// Compares two byte strings.
pub fn same_bytes(a: &[u8], b: &[u8]) -> (r: bool)
    ensures
        r == (a@ == b@),
{
    if a.len() != b.len() {
        return false;
    }
    let n: usize = a.len();
    for i in 0..n
        invariant
            n == a@.len() == b@.len(),
            forall|j: int| 0 <= j < i ==> a@[j] == b@[j],
    {
        if a[i] != b[i] {
            return false;
        }
    }
    assert(a@ =~= b@);
    true
}

/// Whether `text` begins with `prefix`.
pub fn starts_with(text: &[u8], prefix: &[u8]) -> (r: bool)
    ensures
        r == begins_with(text@, prefix@),
{
    if text.len() < prefix.len() {
        return false;
    }
    assert(text@.take(prefix@.len() as int) =~= text@.subrange(0, prefix@.len() as int));
    same_bytes(slice_subrange(text, 0, prefix.len()), prefix)
}

/// Whether `text` ends with `suffix`.
pub fn ends_with(text: &[u8], suffix: &[u8]) -> (r: bool)
    ensures
        r == finishes_with(text@, suffix@),
{
    if text.len() < suffix.len() {
        return false;
    }
    assert(text@.skip(text@.len() - suffix@.len()) =~= text@.subrange(
        text@.len() - suffix@.len(),
        text@.len() as int,
    ));
    same_bytes(slice_subrange(text, text.len() - suffix.len(), text.len()), suffix)
}

/// The first place at or after `from` where `needle` stands in `hay`.
pub open spec fn first_at(hay: Seq<u8>, needle: Seq<u8>, from: int) -> Option<int>
    decreases hay.len() - from + 1,
{
    if from < 0 || from + needle.len() > hay.len() {
        None
    } else if stands_at(hay, needle, from) {
        Some(from)
    } else {
        first_at(hay, needle, from + 1)
    }
}

/// `first_at` finds a place where the needle stands, with none before it, if there is any.
pub proof fn lemma_first_at(hay: Seq<u8>, needle: Seq<u8>, from: int)
    requires
        from >= 0,
    ensures
        match first_at(hay, needle, from) {
            Some(at) => from <= at && stands_at(hay, needle, at) && forall|j: int|
                from <= j < at ==> !stands_at(hay, needle, j),
            None => forall|j: int| from <= j ==> !stands_at(hay, needle, j),
        },
    decreases hay.len() - from + 1,
{
    if from + needle.len() <= hay.len() && !stands_at(hay, needle, from) {
        lemma_first_at(hay, needle, from + 1);
    }
}

/// The first place where `needle` stands in `hay`.
pub fn find_bytes(hay: &[u8], needle: &[u8]) -> (r: Option<usize>)
    ensures
        match r {
            Some(at) => first_at(hay@, needle@, 0) == Some(at as int) && at + needle@.len()
                <= hay@.len(),
            None => first_at(hay@, needle@, 0) is None,
        },
{
    if needle.len() > hay.len() {
        return None;
    }
    let last: usize = hay.len() - needle.len();
    let mut at: usize = 0;
    assert(hay@.len() == hay.len());
    while at <= last
        invariant
            needle@.len() <= hay@.len(),
            last == hay@.len() - needle@.len(),
            hay@.len() <= usize::MAX,
            at <= last + 1,
            first_at(hay@, needle@, 0) == first_at(hay@, needle@, at as int),
        decreases last + 1 - at,
    {
        if same_bytes(slice_subrange(hay, at, at + needle.len()), needle) {
            return Some(at);
        }
        if at == last {
            assert(first_at(hay@, needle@, at + 1) is None);
            return None;
        }
        at = at + 1;
    }
    None
}

/// Whether `needle` stands anywhere in `hay`.
pub open spec fn holds(hay: Seq<u8>, needle: Seq<u8>) -> bool {
    exists|at: int| stands_at(hay, needle, at)
}

/// Whether `needle` stands anywhere in `hay`.
pub fn contains_subslice(hay: &[u8], needle: &[u8]) -> (r: bool)
    ensures
        r == holds(hay@, needle@),
{
    proof {
        lemma_first_at(hay@, needle@, 0);
    }
    match find_bytes(hay, needle) {
        Some(_) => true,
        None => {
            assert forall|at: int| !stands_at(hay@, needle@, at) by {}
            false
        },
    }
}

/// Where the first byte out of `a` and `b` stands, or the length if neither occurs.
pub open spec fn until_either(text: Seq<u8>, a: u8, b: u8) -> nat
    decreases text.len(),
{
    if text.len() == 0 || text[0] == a || text[0] == b {
        0
    } else {
        1 + until_either(text.drop_first(), a, b)
    }
}

/// `until_either` is the first position of such a byte.
pub proof fn lemma_until_either(text: Seq<u8>, a: u8, b: u8)
    ensures
        until_either(text, a, b) <= text.len(),
        until_either(text, a, b) < text.len() ==> (text[until_either(text, a, b) as int] == a
            || text[until_either(text, a, b) as int] == b),
        forall|i: int|
            0 <= i < until_either(text, a, b) ==> (#[trigger] text[i]) != a && text[i] != b,
    decreases text.len(),
{
    if text.len() > 0 && text[0] != a && text[0] != b {
        let rest = text.drop_first();
        lemma_until_either(rest, a, b);
        assert forall|i: int| 0 <= i < until_either(text, a, b) implies (#[trigger] text[i]) != a
            && text[i] != b by {
            if i > 0 {
                assert(text[i] == rest[i - 1]);
            }
        }
    }
}

/// Where the first byte out of `a` and `b` stands, or the length if neither occurs.
pub fn position_either(text: &[u8], a: u8, b: u8) -> (r: usize)
    ensures
        r == until_either(text@, a, b),
        r <= text@.len(),
{
    let mut i: usize = 0;
    assert(text@.skip(0) =~= text@);
    while i < text.len()
        invariant
            i <= text@.len(),
            until_either(text@, a, b) == i + until_either(text@.skip(i as int), a, b),
        decreases text@.len() - i,
    {
        let ghost rest = text@.skip(i as int);
        assert(rest[0] == text@[i as int]);
        if text[i] == a || text[i] == b {
            return i;
        }
        assert(rest.drop_first() =~= text@.skip(i + 1));
        i = i + 1;
    }
    i
}

/// Bytes that count as white space in headers.
pub open spec fn is_ascii_space(b: u8) -> bool {
    b == 0x20 || b == 0x09 || b == 0x0a || b == 0x0c || b == 0x0d
}

/// `text` without leading white space.
pub open spec fn trim_front(text: Seq<u8>) -> Seq<u8>
    decreases text.len(),
{
    if text.len() > 0 && is_ascii_space(text[0]) {
        trim_front(text.drop_first())
    } else {
        text
    }
}

/// `text` without trailing white space.
pub open spec fn trim_back(text: Seq<u8>) -> Seq<u8>
    decreases text.len(),
{
    if text.len() > 0 && is_ascii_space(text.last()) {
        trim_back(text.drop_last())
    } else {
        text
    }
}

/// `text` without white space at either end.
pub open spec fn trimmed(text: Seq<u8>) -> Seq<u8> {
    trim_back(trim_front(text))
}

fn ascii_space(b: u8) -> (r: bool)
    ensures
        r == is_ascii_space(b),
{
    b == 0x20 || b == 0x09 || b == 0x0a || b == 0x0c || b == 0x0d
}

/// Drops white space at both ends.
pub fn trim_ascii_ws(text: &[u8]) -> (r: &[u8])
    ensures
        r@ == trimmed(text@),
{
    let n: usize = text.len();
    let mut start: usize = 0;
    assert(text@.skip(0) =~= text@);
    while start < n && ascii_space(text[start])
        invariant
            n == text@.len(),
            start <= n,
            trim_front(text@) == trim_front(text@.skip(start as int)),
        decreases n - start,
    {
        assert(text@.skip(start as int)[0] == text@[start as int]);
        assert(text@.skip(start as int).drop_first() =~= text@.skip(start + 1));
        start = start + 1;
    }
    assert(start < n ==> text@.skip(start as int)[0] == text@[start as int]);
    let ghost front = text@.skip(start as int);
    assert(trim_front(text@) == front);
    let mut end: usize = n;
    assert(text@.subrange(start as int, end as int) =~= front);
    while start < end && ascii_space(text[end - 1])
        invariant
            n == text@.len(),
            start <= end <= n,
            trim_back(front) == trim_back(text@.subrange(start as int, end as int)),
        decreases end,
    {
        let ghost now = text@.subrange(start as int, end as int);
        assert(now.last() == text@[end - 1]);
        assert(now.drop_last() =~= text@.subrange(start as int, end - 1));
        end = end - 1;
    }
    assert(start < end ==> text@.subrange(start as int, end as int).last() == text@[end - 1]);
    slice_subrange(text, start, end)
}

pub open spec fn is_digit(b: u8) -> bool {
    0x30 <= b <= 0x39
}

/// How many digits `text` begins with.
pub open spec fn digit_run(text: Seq<u8>) -> nat
    decreases text.len(),
{
    if text.len() > 0 && is_digit(text[0]) {
        1 + digit_run(text.drop_first())
    } else {
        0
    }
}

/// The number written by decimal digits.
pub open spec fn decimal(digits: Seq<u8>) -> nat
    decreases digits.len(),
{
    if digits.len() == 0 {
        0
    } else {
        decimal(digits.drop_last()) * 10 + (digits.last() - 0x30) as nat
    }
}

/// The number that `text` begins with; `None` without digits or beyond 64 bits.
pub open spec fn leading_number(text: Seq<u8>) -> Option<u64> {
    let n = digit_run(text);
    let v = decimal(text.take(n as int));
    if n == 0 || v > u64::MAX {
        None
    } else {
        Some(v as u64)
    }
}

/// `digit_run` is the length of the digits in front.
pub proof fn lemma_digit_run(text: Seq<u8>)
    ensures
        digit_run(text) <= text.len(),
        digit_run(text) < text.len() ==> !is_digit(text[digit_run(text) as int]),
        forall|i: int| 0 <= i < digit_run(text) ==> is_digit(#[trigger] text[i]),
    decreases text.len(),
{
    if text.len() > 0 && is_digit(text[0]) {
        let rest = text.drop_first();
        lemma_digit_run(rest);
        assert forall|i: int| 0 <= i < digit_run(text) implies is_digit(#[trigger] text[i]) by {
            if i > 0 {
                assert(text[i] == rest[i - 1]);
            }
        }
    }
}

/// A longer run of digits never stands for a smaller number.
proof fn lemma_decimal_grows(digits: Seq<u8>, n: int)
    requires
        0 <= n <= digits.len(),
        forall|i: int| 0 <= i < digits.len() ==> is_digit(#[trigger] digits[i]),
    ensures
        decimal(digits.take(n)) <= decimal(digits),
    decreases digits.len(),
{
    if n == digits.len() {
        assert(digits.take(n) =~= digits);
    } else {
        let shorter = digits.drop_last();
        assert forall|i: int| 0 <= i < shorter.len() implies is_digit(#[trigger] shorter[i]) by {
            assert(shorter[i] == digits[i]);
        }
        lemma_decimal_grows(shorter, n);
        assert(shorter.take(n) =~= digits.take(n));
        assert(is_digit(digits.last()));
    }
}

/// The number of digits that `text` begins with.
fn count_digits(text: &[u8]) -> (r: usize)
    ensures
        r == digit_run(text@),
        r <= text@.len(),
{
    let mut i: usize = 0;
    assert(text@.skip(0) =~= text@);
    while i < text.len() && 0x30 <= text[i] && text[i] <= 0x39
        invariant
            i <= text@.len(),
            digit_run(text@) == i + digit_run(text@.skip(i as int)),
        decreases text@.len() - i,
    {
        assert(text@.skip(i as int)[0] == text@[i as int]);
        assert(text@.skip(i as int).drop_first() =~= text@.skip(i + 1));
        i = i + 1;
    }
    assert(i < text@.len() ==> text@.skip(i as int)[0] == text@[i as int]);
    i
}

/// Reads the number that `text` begins with.
pub fn parse_u64_digits(text: &[u8]) -> (r: Option<u64>)
    ensures
        r == leading_number(text@),
{
    let n: usize = count_digits(text);
    let ghost run = text@.take(n as int);
    proof {
        lemma_digit_run(text@);
        assert forall|i: int| 0 <= i < run.len() implies is_digit(#[trigger] run[i]) by {
            assert(run[i] == text@[i]);
        }
    }
    if n == 0 {
        return None;
    }
    let mut value: u64 = 0;
    for i in 0..n
        invariant
            n <= text@.len(),
            n == digit_run(text@),
            run == text@.take(n as int),
            forall|j: int| 0 <= j < run.len() ==> is_digit(#[trigger] run[j]),
            value == decimal(run.take(i as int)),
    {
        assert(run[i as int] == text@[i as int]);
        assert(run.take(i + 1).drop_last() =~= run.take(i as int));
        let digit: u64 = (text[i] - 0x30) as u64;
        match value.checked_mul(10) {
            Some(tens) => match tens.checked_add(digit) {
                Some(v) => {
                    value = v;
                },
                None => {
                    proof {
                        lemma_decimal_grows(run, i + 1);
                        lemma_digit_run(text@);
                    }
                    return None;
                },
            },
            None => {
                proof {
                    lemma_decimal_grows(run, i + 1);
                    lemma_digit_run(text@);
                }
                return None;
            },
        }
    }
    assert(run.take(n as int) =~= run);
    Some(value)
}

/// A number that is all of a text, after an optional plus sign.
pub open spec fn whole_number(text: Seq<u8>) -> Option<u64> {
    let digits = if text.len() > 0 && text[0] == 0x2b {
        text.drop_first()
    } else {
        text
    };
    if digit_run(digits) == digits.len() {
        leading_number(digits)
    } else {
        None
    }
}

/// Parses a number that is all of a text.
pub fn parse_whole(text: &[u8]) -> (r: Option<u64>)
    ensures
        r == whole_number(text@),
{
    let n: usize = text.len();
    let digits: &[u8] = if n > 0 && text[0] == 0x2b {
        let rest: &[u8] = slice_subrange(text, 1, n);
        assert(rest@ =~= text@.drop_first());
        rest
    } else {
        text
    };
    let m: usize = digits.len();
    let mut i: usize = 0;
    assert(digits@.skip(0) =~= digits@);
    while i < m
        invariant
            m == digits@.len(),
            i <= m,
            digits@ == (if text@.len() > 0 && text@[0] == 0x2b {
                text@.drop_first()
            } else {
                text@
            }),
            digit_run(digits@) == i + digit_run(digits@.skip(i as int)),
        decreases m - i,
    {
        assert(digits@.skip(i as int)[0] == digits@[i as int]);
        assert(digits@.skip(i as int).drop_first() =~= digits@.skip(i + 1));
        if digits[i] < 0x30 || digits[i] > 0x39 {
            return None;
        }
        i = i + 1;
    }
    assert(digits@.skip(m as int).len() == 0);
    parse_u64_digits(digits)
}

} // verus!
