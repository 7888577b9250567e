//! Request heads: token counts, phase and the identity set by the trusted edge.

use vstd::prelude::*;
use vstd::slice::slice_subrange;
use crate::auth::{GroupId, PrefixFingerprint, TenantId};
use crate::bytes::{
    ascii, ascii_bytes, ascii_eq_ci, begins_with, contains_subslice, ends_with, eq_ignoring_case,
    finishes_with, holds, leading_number, parse_u64_digits, position_either, same_bytes,
    starts_with, trim_ascii_ws, trimmed, until_either, CR, LF, SPACE,
};
use crate::params::ROUTING_SHORT_CONTEXT_TOKENS;

verus! {

/// Longest request head that is read.
pub const MAX_HEAD: usize = 65_536;

pub const COLON: u8 = 0x3a;

pub const QUESTION: u8 = 0x3f;

/// Who a request belongs to, as authenticated before it came here.
#[derive(Debug, Clone, Copy, PartialEq, Eq, Structural)]
pub struct RequestIdentity {
    pub tenant: TenantId,
    pub group: GroupId,
    pub content_fp: PrefixFingerprint,
}

/// A line without one carriage return at its end.
pub open spec fn without_cr(line: Seq<u8>) -> Seq<u8> {
    if line.len() > 0 && line.last() == CR {
        line.drop_last()
    } else {
        line
    }
}

/// Whether a header line carries the given name, in any case, directly before its colon.
pub open spec fn names_header(line: Seq<u8>, name: Seq<u8>) -> bool {
    &&& line.len() > name.len()
    &&& line[name.len() as int] == COLON
    &&& eq_ignoring_case(line.take(name.len() as int), name)
}

/// The trimmed value of the first header with the given name.
pub open spec fn header_value(head: Seq<u8>, name: Seq<u8>) -> Option<Seq<u8>>
    decreases head.len(),
{
    if head.len() == 0 {
        None
    } else {
        let end = until_either(head, LF, LF);
        let line = without_cr(head.take(end as int));
        if names_header(line, name) {
            Some(trimmed(line.skip(name.len() as int + 1)))
        } else if end >= head.len() {
            None
        } else {
            header_value(head.skip(end as int + 1), name)
        }
    }
}

fn header_value_ci<'a>(head: &'a [u8], name: &[u8]) -> (r: Option<&'a [u8]>)
    ensures
        match r {
            Some(v) => header_value(head@, name@) == Some(v@),
            None => header_value(head@, name@) is None,
        },
{
    let n: usize = head.len();
    let mut i: usize = 0;
    assert(head@.skip(0) =~= head@);
    while i < n
        invariant
            n == head@.len(),
            i <= n,
            header_value(head@, name@) == header_value(head@.skip(i as int), name@),
        decreases n - i,
    {
        let rest: &[u8] = slice_subrange(head, i, n);
        assert(rest@ =~= head@.skip(i as int));
        let end: usize = position_either(rest, LF, LF);
        let cut: usize = if end > 0 && rest[end - 1] == CR {
            end - 1
        } else {
            end
        };
        let line: &[u8] = slice_subrange(rest, 0, cut);
        assert(line@ =~= without_cr(rest@.take(end as int)));
        if line.len() > name.len() && line[name.len()] == COLON {
            let front: &[u8] = slice_subrange(line, 0, name.len());
            assert(front@ =~= line@.take(name@.len() as int));
            if ascii_eq_ci(front, name) {
                let value: &[u8] = slice_subrange(line, name.len() + 1, line.len());
                assert(value@ =~= line@.skip(name@.len() as int + 1));
                return Some(trim_ascii_ws(value));
            }
        }
        if end >= rest.len() {
            return None;
        }
        assert(rest@.skip(end + 1) =~= head@.skip(i + end + 1));
        i = i + end + 1;
    }
    None
}

/// Value of a hexadecimal digit.
pub open spec fn hex_digit(b: u8) -> Option<nat> {
    if 0x30 <= b <= 0x39 {
        Some((b - 0x30) as nat)
    } else if 0x41 <= b <= 0x46 {
        Some((b - 0x41 + 10) as nat)
    } else if 0x61 <= b <= 0x66 {
        Some((b - 0x61 + 10) as nat)
    } else {
        None
    }
}

/// The number written by hexadecimal digits; `None` if a byte is none.
pub open spec fn hexadecimal(digits: Seq<u8>) -> Option<nat>
    decreases digits.len(),
{
    if digits.len() == 0 {
        Some(0)
    } else {
        match (hexadecimal(digits.drop_last()), hex_digit(digits.last())) {
            (Some(v), Some(d)) => Some(v * 16 + d),
            _ => None,
        }
    }
}

/// Hexadecimal digits, all of the text, after an optional plus sign.
pub open spec fn hex_number(text: Seq<u8>) -> Option<u64> {
    let digits = if text.len() > 0 && text[0] == 0x2b {
        text.drop_first()
    } else {
        text
    };
    match hexadecimal(digits) {
        Some(v) if digits.len() > 0 && v <= u64::MAX => Some(v as u64),
        _ => None,
    }
}

/// A number in decimal, or in hexadecimal behind `0x`.
pub open spec fn number(text: Seq<u8>) -> Option<u64> {
    if begins_with(text, ascii("0x"@)) || begins_with(text, ascii("0X"@)) {
        hex_number(text.skip(2))
    } else {
        leading_number(text)
    }
}

fn hex_value(b: u8) -> (r: Option<u64>)
    ensures
        match r {
            Some(d) => hex_digit(b) == Some(d as nat) && d < 16,
            None => hex_digit(b) is None,
        },
{
    if 0x30 <= b && b <= 0x39 {
        Some((b - 0x30) as u64)
    } else if 0x41 <= b && b <= 0x46 {
        Some((b - 0x41 + 10) as u64)
    } else if 0x61 <= b && b <= 0x66 {
        Some((b - 0x61 + 10) as u64)
    } else {
        None
    }
}

/// A longer text of hexadecimal digits never stands for a smaller number.
proof fn lemma_hexadecimal_grows(digits: Seq<u8>, n: int)
    requires
        0 <= n <= digits.len(),
    ensures
        hexadecimal(digits) matches Some(v) ==> {
            &&& hexadecimal(digits.take(n)) is Some
            &&& hexadecimal(digits.take(n))->0 <= v
        },
    decreases digits.len(),
{
    if n == digits.len() {
        assert(digits.take(n) =~= digits);
    } else {
        let shorter = digits.drop_last();
        lemma_hexadecimal_grows(shorter, n);
        assert(shorter.take(n) =~= digits.take(n));
    }
}

fn parse_hex(text: &[u8]) -> (r: Option<u64>)
    ensures
        r == hex_number(text@),
{
    let n: usize = text.len();
    let start: usize = if n > 0 && text[0] == 0x2b {
        1
    } else {
        0
    };
    let ghost digits = text@.skip(start as int);
    assert(start == 1 ==> digits =~= text@.drop_first());
    assert(start == 0 ==> digits =~= text@);
    if start == n {
        assert(digits.len() == 0);
        return None;
    }
    let mut value: u64 = 0;
    for i in start..n
        invariant
            n == text@.len(),
            start <= i <= n,
            digits == text@.skip(start as int),
            hexadecimal(digits.take(i - start)) == Some(value as nat),
            hex_number(text@) == (match hexadecimal(digits) {
                Some(v) if digits.len() > 0 && v <= u64::MAX => Some(v as u64),
                _ => None,
            }),
    {
        proof {
            assert(digits[i - start] == text@[i as int]);
            assert(digits.take(i - start + 1).drop_last() =~= digits.take(i - start));
            lemma_hexadecimal_grows(digits, i - start + 1);
        }
        match hex_value(text[i]) {
            Some(d) => {
                if value > (u64::MAX - d) / 16 {
                    assert(value * 16 + d > u64::MAX);
                    return None;
                }
                value = value * 16 + d;
            },
            None => {
                return None;
            },
        }
    }
    assert(digits.take(n - start) =~= digits);
    Some(value)
}

/// Reads a number in decimal, or in hexadecimal behind `0x`.
pub fn parse_u64_maybe_hex(text: &[u8]) -> (r: Option<u64>)
    ensures
        r == number(text@),
{
    proof {
        reveal_strlit("0x");
        reveal_strlit("0X");
    }
    if starts_with(text, ascii_bytes("0x")) || starts_with(text, ascii_bytes("0X")) {
        let digits: &[u8] = slice_subrange(text, 2, text.len());
        assert(digits@ =~= text@.skip(2));
        return parse_hex(digits);
    }
    parse_u64_digits(text)
}

/// The number in a header, if it is there.
pub open spec fn header_number(head: Seq<u8>, name: Seq<char>) -> Option<u64> {
    match header_value(head, ascii(name)) {
        Some(v) => number(v),
        None => None,
    }
}

/// The prompt length declared in the `x-demiurge-tokens` header.
pub open spec fn declared_tokens(head: Seq<u8>) -> Option<u64> {
    match header_value(head, ascii("x-demiurge-tokens"@)) {
        Some(v) => leading_number(v),
        None => None,
    }
}

/// Reads the prompt length from its header.
pub fn parse_prompt_tokens(head: &[u8]) -> (r: Option<u64>)
    ensures
        r == declared_tokens(head@),
{
    proof {
        reveal_strlit("x-demiurge-tokens");
    }
    match header_value_ci(head, ascii_bytes("x-demiurge-tokens")) {
        Some(v) => parse_u64_digits(v),
        None => None,
    }
}

/// The first line: everything up to the first line break.
pub open spec fn first_line(head: Seq<u8>) -> Seq<u8> {
    head.take(until_either(head, CR, LF) as int)
}

/// The text without leading spaces.
pub open spec fn skip_spaces(text: Seq<u8>) -> Seq<u8>
    decreases text.len(),
{
    if text.len() > 0 && text[0] == SPACE {
        skip_spaces(text.drop_first())
    } else {
        text
    }
}

/// The first word of a line, and what stands behind it.
pub open spec fn first_word(text: Seq<u8>) -> (Seq<u8>, Seq<u8>) {
    let t = skip_spaces(text);
    let n = until_either(t, SPACE, SPACE) as int;
    (t.take(n), t.skip(n))
}

/// Method and path: the first two words of the first line.
pub open spec fn request_line(head: Seq<u8>) -> Option<(Seq<u8>, Seq<u8>)> {
    let (method, rest) = first_word(first_line(head));
    let (path, _) = first_word(rest);
    if method.len() == 0 || path.len() == 0 {
        None
    } else {
        Some((method, path))
    }
}

fn take_first_line(head: &[u8]) -> (r: &[u8])
    ensures
        r@ == first_line(head@),
{
    let end: usize = position_either(head, CR, LF);
    assert(head@.subrange(0, end as int) =~= head@.take(end as int));
    slice_subrange(head, 0, end)
}

fn take_word(text: &[u8]) -> (r: (&[u8], &[u8]))
    ensures
        (r.0@, r.1@) == first_word(text@),
{
    let n: usize = text.len();
    let mut i: usize = 0;
    assert(text@.skip(0) =~= text@);
    while i < n && text[i] == SPACE
        invariant
            n == text@.len(),
            i <= n,
            skip_spaces(text@) == skip_spaces(text@.skip(i as int)),
        decreases n - i,
    {
        assert(text@.skip(i as int)[0] == text@[i as int]);
        assert(text@.skip(i as int).drop_first() =~= text@.skip(i + 1));
        i = i + 1;
    }
    assert(i < n ==> text@.skip(i as int)[0] == text@[i as int]);
    let rest: &[u8] = slice_subrange(text, i, n);
    assert(rest@ =~= text@.skip(i as int));
    let end: usize = position_either(rest, SPACE, SPACE);
    assert(rest@.subrange(0, end as int) =~= rest@.take(end as int));
    assert(rest@.subrange(end as int, rest@.len() as int) =~= rest@.skip(end as int));
    (slice_subrange(rest, 0, end), slice_subrange(rest, end, rest.len()))
}

fn request_line_parts(head: &[u8]) -> (r: Option<(&[u8], &[u8])>)
    ensures
        match r {
            Some(p) => request_line(head@) == Some((p.0@, p.1@)),
            None => request_line(head@) is None,
        },
{
    let (method, rest) = take_word(take_first_line(head));
    let (path, _) = take_word(rest);
    if method.len() == 0 || path.len() == 0 {
        return None;
    }
    Some((method, path))
}

/// The prompt length in a path such as `/prefill/100` or `/long/100`.
pub open spec fn path_tokens(head: Seq<u8>) -> Option<u64> {
    match request_line(head) {
        Some((_, path)) => if begins_with(path, ascii("/prefill/"@)) {
            leading_number(path.skip(9))
        } else if begins_with(path, ascii("/long/"@)) {
            leading_number(path.skip(6))
        } else {
            None
        },
        None => None,
    }
}

/// Reads the prompt length from the path.
pub fn parse_path_tokens(head: &[u8]) -> (r: Option<u64>)
    ensures
        r == path_tokens(head@),
{
    match request_line_parts(head) {
        Some((_, path)) => {
            proof {
                reveal_strlit("/prefill/");
                reveal_strlit("/long/");
            }
            if starts_with(path, ascii_bytes("/prefill/")) {
                assert(path@.subrange(9, path@.len() as int) =~= path@.skip(9));
                return parse_u64_digits(slice_subrange(path, 9, path.len()));
            }
            if starts_with(path, ascii_bytes("/long/")) {
                assert(path@.subrange(6, path@.len() as int) =~= path@.skip(6));
                return parse_u64_digits(slice_subrange(path, 6, path.len()));
            }
            None
        },
        None => None,
    }
}

/// The prompt length used for admission; one that is unknown counts as too long for the fast path.
pub open spec fn estimated_tokens(head: Seq<u8>) -> u64 {
    match declared_tokens(head) {
        Some(n) => n,
        None => match path_tokens(head) {
            Some(n) => n,
            None => (ROUTING_SHORT_CONTEXT_TOKENS + 1) as u64,
        },
    }
}

/// Estimates the prompt length.
pub fn estimate_prompt_tokens(head: &[u8]) -> (r: u64)
    ensures
        r == estimated_tokens(head@),
{
    match parse_prompt_tokens(head) {
        Some(n) => n,
        None => match parse_path_tokens(head) {
            Some(n) => n,
            None => ROUTING_SHORT_CONTEXT_TOKENS + 1,
        },
    }
}

/// The identity in the three edge headers; all of them must be there.
pub open spec fn identity(head: Seq<u8>) -> Option<RequestIdentityView> {
    match (
        header_number(head, "x-demiurge-tenant"@),
        header_number(head, "x-demiurge-group"@),
        header_number(head, "x-demiurge-prefix-fp"@),
    ) {
        (Some(tenant), Some(group), Some(content)) => Some(
            RequestIdentityView { tenant, group, content },
        ),
        _ => None,
    }
}

/// Without all three headers there is no identity, and so no shared warmth.
pub proof fn partial_identity_is_none(head: Seq<u8>)
    requires
        header_number(head, "x-demiurge-tenant"@) is None || header_number(
            head,
            "x-demiurge-group"@,
        ) is None || header_number(head, "x-demiurge-prefix-fp"@) is None,
    ensures
        identity(head) is None,
{
}

/// The numbers of an identity.
pub struct RequestIdentityView {
    pub tenant: u64,
    pub group: u64,
    pub content: u64,
}

impl View for RequestIdentity {
    type V = RequestIdentityView;

    open spec fn view(&self) -> RequestIdentityView {
        RequestIdentityView {
            tenant: self.tenant.spec_raw(),
            group: self.group.spec_raw(),
            content: self.content_fp.spec_raw(),
        }
    }
}

fn parse_header_number(head: &[u8], name: &str) -> (r: Option<u64>)
    requires
        name.is_ascii(),
    ensures
        r == header_number(head@, name@),
{
    match header_value_ci(head, ascii_bytes(name)) {
        Some(v) => parse_u64_maybe_hex(v),
        None => None,
    }
}

/// Reads the identity that an authenticating edge has set.
pub fn parse_request_identity(head: &[u8]) -> (r: Option<RequestIdentity>)
    ensures
        match r {
            Some(id) => identity(head@) == Some(id@),
            None => identity(head@) is None,
        },
{
    proof {
        reveal_strlit("x-demiurge-tenant");
        reveal_strlit("x-demiurge-group");
        reveal_strlit("x-demiurge-prefix-fp");
    }
    let tenant: u64 = match parse_header_number(head, "x-demiurge-tenant") {
        Some(n) => n,
        None => {
            return None;
        },
    };
    let group: u64 = match parse_header_number(head, "x-demiurge-group") {
        Some(n) => n,
        None => {
            return None;
        },
    };
    let content: u64 = match parse_header_number(head, "x-demiurge-prefix-fp") {
        Some(n) => n,
        None => {
            return None;
        },
    };
    Some(
        RequestIdentity {
            tenant: TenantId::new(tenant),
            group: GroupId::new(group),
            content_fp: PrefixFingerprint::new(content),
        },
    )
}

/// Health, metrics and catalogue requests, which need no prefill.
pub open spec fn admin_probe(head: Seq<u8>) -> bool {
    match request_line(head) {
        Some((method, target)) => {
            let path = target.take(until_either(target, QUESTION, QUESTION) as int);
            &&& !eq_ignoring_case(method, ascii("POST"@))
            &&& {
                ||| finishes_with(path, ascii("/models"@))
                ||| finishes_with(path, ascii("/version"@))
                ||| path == ascii("/health"@)
                ||| path == ascii("/healthz"@)
                ||| path == ascii("/ready"@)
                ||| path == ascii("/readyz"@)
                ||| path == ascii("/metrics"@)
            }
        },
        None => false,
    }
}

fn is_admin_probe_request(head: &[u8]) -> (r: bool)
    ensures
        r == admin_probe(head@),
{
    match request_line_parts(head) {
        Some((method, target)) => {
            proof {
                reveal_strlit("POST");
                reveal_strlit("/models");
                reveal_strlit("/version");
                reveal_strlit("/health");
                reveal_strlit("/healthz");
                reveal_strlit("/ready");
                reveal_strlit("/readyz");
                reveal_strlit("/metrics");
            }
            if ascii_eq_ci(method, ascii_bytes("POST")) {
                return false;
            }
            let end: usize = position_either(target, QUESTION, QUESTION);
            assert(target@.subrange(0, end as int) =~= target@.take(end as int));
            let path: &[u8] = slice_subrange(target, 0, end);
            ends_with(path, ascii_bytes("/models")) || ends_with(path, ascii_bytes("/version"))
                || same_bytes(path, ascii_bytes("/health")) || same_bytes(
                path,
                ascii_bytes("/healthz"),
            ) || same_bytes(path, ascii_bytes("/ready")) || same_bytes(
                path,
                ascii_bytes("/readyz"),
            ) || same_bytes(path, ascii_bytes("/metrics"))
        },
        None => false,
    }
}

/// Whether a request asks for decode alone: by header, by path, or as a probe.
pub open spec fn decode_only(head: Seq<u8>) -> bool {
    ||| (header_value(head, ascii("x-demiurge-phase"@)) matches Some(v) && eq_ignoring_case(
        v,
        ascii("decode"@),
    ))
    ||| holds(first_line(head), ascii(" /decode"@))
    ||| admin_probe(head)
}

/// Whether a request asks for decode alone.
pub fn is_decode_only(head: &[u8]) -> (r: bool)
    ensures
        r == decode_only(head@),
{
    proof {
        reveal_strlit("x-demiurge-phase");
        reveal_strlit("decode");
        reveal_strlit(" /decode");
    }
    if let Some(v) = header_value_ci(head, ascii_bytes("x-demiurge-phase")) {
        if ascii_eq_ci(v, ascii_bytes("decode")) {
            return true;
        }
    }
    if contains_subslice(take_first_line(head), ascii_bytes(" /decode")) {
        return true;
    }
    is_admin_probe_request(head)
}

/// Whether a head read so far is complete: at its blank line or at the limit.
pub open spec fn head_is_complete(head: Seq<u8>) -> bool {
    finishes_with(head, ascii("\r\n\r\n"@)) || head.len() >= MAX_HEAD
}

/// Whether reading the head stops here.
pub fn head_complete(head: &[u8]) -> (r: bool)
    ensures
        r == head_is_complete(head@),
{
    proof {
        reveal_strlit("\r\n\r\n");
    }
    ends_with(head, ascii_bytes("\r\n\r\n")) || head.len() >= MAX_HEAD
}

} // verus!
