//! What reading a request head gives back of what was written into it.

use vstd::prelude::*;
use crate::bytes::{
    ascii, begins_with, decimal, digit_run, eq_ignoring_case, is_ascii_space, is_digit,
    leading_number, lemma_digit_run, lemma_first_at, lemma_until_either, lower, stands_at,
    trim_back, trim_front, trimmed, until_either, CR, LF,
};
use crate::handoff::{
    after_line, after_spaces, announced, claims_in, claims_under, headers_of, spaced_number, Claims,
    Handoff,
};
use crate::http::{
    declared_tokens, estimated_tokens, header_value, identity, names_header, number, without_cr,
    RequestIdentityView, COLON,
};

verus! {

/// A text without line feeds.
pub open spec fn one_line(text: Seq<u8>) -> bool {
    forall|i: int| 0 <= i < text.len() ==> #[trigger] text[i] != LF
}

/// A line, its end and what follows.
pub open spec fn line_and_rest(line: Seq<u8>, rest: Seq<u8>) -> Seq<u8> {
    line + seq![CR, LF] + rest
}

proof fn lemma_first_line(line: Seq<u8>, rest: Seq<u8>)
    requires
        one_line(line),
    ensures
        ({
            let head = line_and_rest(line, rest);
            let end = until_either(head, LF, LF);
            &&& end == line.len() + 1
            &&& without_cr(head.take(end as int)) == line
            &&& head.skip(end as int + 1) == rest
        }),
{
    let head = line_and_rest(line, rest);
    lemma_until_either(head, LF, LF);
    let end = until_either(head, LF, LF) as int;
    let n = line.len() as int;
    assert(head[n + 1] == LF);
    assert(head[n] == CR);
    if end < n + 1 {
        if end < n {
            assert(head[end] == line[end]);
        }
        assert(false);
    }
    assert(end == n + 1);
    assert(head.take(end).drop_last() =~= line);
    assert(head.take(end).last() == CR);
    assert(head.skip(end + 1) =~= rest);
}

/// A header is read back: a line of its name in any case, a colon and a value gives the value
/// without white space at its ends, whatever follows.
pub proof fn header_is_read_back(name: Seq<u8>, written: Seq<u8>, value: Seq<u8>, rest: Seq<u8>)
    requires
        eq_ignoring_case(written, name),
        one_line(written),
        one_line(value),
    ensures
        header_value(line_and_rest(written + seq![COLON] + value, rest), name) == Some(
            trimmed(value),
        ),
{
    let line = written + seq![COLON] + value;
    assert forall|i: int| 0 <= i < line.len() implies #[trigger] line[i] != LF by {
        if i < written.len() {
            assert(line[i] == written[i]);
        } else if i > written.len() {
            assert(line[i] == value[i - written.len() - 1]);
        }
    }
    lemma_first_line(line, rest);
    let n = name.len() as int;
    assert(line[n] == COLON);
    assert(line.take(n) =~= written);
    assert(names_header(line, name));
    assert(line.skip(n + 1) =~= value);
}

/// A line that is no header of the name is passed over.
pub proof fn other_lines_are_passed_over(name: Seq<u8>, line: Seq<u8>, rest: Seq<u8>)
    requires
        one_line(line),
        line.len() <= name.len() || line[name.len() as int] != COLON || !eq_ignoring_case(
            line.take(name.len() as int),
            name,
        ),
    ensures
        header_value(line_and_rest(line, rest), name) == header_value(rest, name),
        header_value(Seq::empty(), name) is None,
{
    lemma_first_line(line, rest);
}

/// White space at the ends of a value does not count, and nothing else is taken away.
pub proof fn trimming_drops_the_ends(front: Seq<u8>, core: Seq<u8>, back: Seq<u8>)
    requires
        forall|i: int| 0 <= i < front.len() ==> is_ascii_space(#[trigger] front[i]),
        forall|i: int| 0 <= i < back.len() ==> is_ascii_space(#[trigger] back[i]),
        core.len() > 0,
        !is_ascii_space(core[0]),
        !is_ascii_space(core.last()),
    ensures
        trimmed(front + core + back) == core,
{
    lemma_trim_front(front, core + back);
    assert(front + core + back =~= front + (core + back));
    lemma_trim_back(core, back);
}

proof fn lemma_trim_front(front: Seq<u8>, rest: Seq<u8>)
    requires
        forall|i: int| 0 <= i < front.len() ==> is_ascii_space(#[trigger] front[i]),
        rest.len() > 0,
        !is_ascii_space(rest[0]),
    ensures
        trim_front(front + rest) == rest,
    decreases front.len(),
{
    let all = front + rest;
    if front.len() == 0 {
        assert(all =~= rest);
    } else {
        assert(all[0] == front[0]);
        assert(all.drop_first() =~= front.drop_first() + rest);
        assert forall|i: int| 0 <= i < front.len() - 1 implies is_ascii_space(
            #[trigger] front.drop_first()[i],
        ) by {
            assert(is_ascii_space(front[i + 1]));
        }
        lemma_trim_front(front.drop_first(), rest);
    }
}

proof fn lemma_trim_back(core: Seq<u8>, back: Seq<u8>)
    requires
        forall|i: int| 0 <= i < back.len() ==> is_ascii_space(#[trigger] back[i]),
        core.len() > 0,
        !is_ascii_space(core.last()),
    ensures
        trim_back(core + back) == core,
    decreases back.len(),
{
    let all = core + back;
    if back.len() == 0 {
        assert(all =~= core);
    } else {
        assert(all.last() == back.last());
        assert(is_ascii_space(back[back.len() - 1]));
        assert(all.drop_last() =~= core + back.drop_last());
        assert forall|i: int| 0 <= i < back.len() - 1 implies is_ascii_space(
            #[trigger] back.drop_last()[i],
        ) by {
            assert(is_ascii_space(back[i]));
        }
        lemma_trim_back(core, back.drop_last());
    }
}

/// A digit more is ten times the number and the digit.
pub proof fn decimal_digits_add_up(digits: Seq<u8>, d: u8)
    requires
        is_digit(d),
    ensures
        decimal(Seq::empty()) == 0,
        decimal(digits.push(d)) == 10 * decimal(digits) + (d - 48),
{
    assert(digits.push(d).drop_last() =~= digits);
}

/// Digits in front of a text are read as the number they write, unless it is beyond 64 bits; what
/// follows them does not count.
pub proof fn digits_are_read_back(digits: Seq<u8>, rest: Seq<u8>)
    requires
        digits.len() > 0,
        forall|i: int| 0 <= i < digits.len() ==> is_digit(#[trigger] digits[i]),
        rest.len() == 0 || !is_digit(rest[0]),
    ensures
        decimal(digits) <= u64::MAX ==> leading_number(digits + rest) == Some(
            decimal(digits) as u64,
        ),
        decimal(digits) > u64::MAX ==> leading_number(digits + rest) is None,
        leading_number(rest) is None,
{
    let all = digits + rest;
    lemma_digit_run(all);
    lemma_digit_run(rest);
    let n = digit_run(all) as int;
    if n < digits.len() {
        assert(all[n] == digits[n]);
        assert(false);
    }
    if n > digits.len() {
        assert(is_digit(all[digits.len() as int]));
        assert(false);
    }
    assert(all.take(n) =~= digits);
}

/// A request that declares its length in a header after its request line is taken at its word.
pub proof fn declared_length_is_used(
    request: Seq<u8>,
    written: Seq<u8>,
    front: Seq<u8>,
    digits: Seq<u8>,
    rest: Seq<u8>,
)
    requires
        one_line(request),
        request.len() <= 17 || request[17] != COLON,
        one_line(written),
        eq_ignoring_case(written, ascii("x-demiurge-tokens"@)),
        forall|i: int| 0 <= i < front.len() ==> #[trigger] front[i] == 0x20,
        digits.len() > 0,
        forall|i: int| 0 <= i < digits.len() ==> is_digit(#[trigger] digits[i]),
        decimal(digits) <= u64::MAX,
    ensures
        ({
            let header = written + seq![COLON] + (front + digits);
            let head = line_and_rest(request, line_and_rest(header, rest));
            declared_tokens(head) == Some(decimal(digits) as u64) && estimated_tokens(head)
                == decimal(digits)
        }),
{
    reveal_strlit("x-demiurge-tokens");
    let name = ascii("x-demiurge-tokens"@);
    let value = front + digits;
    let header = written + seq![COLON] + value;
    assert(name.len() == 17);
    assert(one_line(value)) by {
        assert forall|i: int| 0 <= i < value.len() implies #[trigger] value[i] != LF by {
            if i < front.len() {
                assert(value[i] == front[i]);
            } else {
                assert(value[i] == digits[i - front.len()]);
            }
        }
    }
    other_lines_are_passed_over(name, request, line_and_rest(header, rest));
    header_is_read_back(name, written, value, rest);
    assert forall|i: int| 0 <= i < front.len() implies is_ascii_space(#[trigger] front[i]) by {
        assert(front[i] == 0x20);
    }
    assert(is_digit(digits[0]));
    assert(is_digit(digits[digits.len() - 1]));
    trimming_drops_the_ends(front, digits, Seq::empty());
    assert(front + digits + Seq::<u8>::empty() =~= value);
    digits_are_read_back(digits, Seq::empty());
    assert(digits + Seq::<u8>::empty() =~= digits);
}

/// A number between white space, as a hand-off header has it.
proof fn lemma_spaced(front: Seq<u8>, digits: Seq<u8>)
    requires
        forall|i: int| 0 <= i < front.len() ==> #[trigger] front[i] == 0x20,
        digits.len() > 0,
        forall|i: int| 0 <= i < digits.len() ==> is_digit(#[trigger] digits[i]),
        decimal(digits) <= u64::MAX,
    ensures
        spaced_number(front + digits + seq![CR]) == Some(decimal(digits) as u64),
    decreases front.len(),
{
    let end = seq![CR];
    let all = front + digits + end;
    if front.len() > 0 {
        assert(all[0] == front[0]);
        assert(all.skip(1) =~= front.drop_first() + digits + end);
        assert forall|i: int| 0 <= i < front.len() - 1 implies #[trigger] front.drop_first()[i]
            == 0x20 by {
            assert(front[i + 1] == 0x20);
        }
        lemma_spaced(front.drop_first(), digits);
        assert(after_spaces(all) == after_spaces(front.drop_first() + digits + end));
    } else {
        assert(all =~= digits + end);
        assert(is_digit(digits[0]));
        assert(all[0] == digits[0]);
        assert(after_spaces(all) == all);
        digits_are_read_back(digits, end);
        lemma_digit_run(all);
        let n = digit_run(all) as int;
        if n < digits.len() {
            assert(all[n] == digits[n]);
            assert(false);
        }
        if n > digits.len() {
            assert(is_digit(all[digits.len() as int]));
            assert(false);
        }
        assert(all.skip(n) =~= end);
        assert(end.skip(1) =~= Seq::<u8>::empty());
        assert(after_spaces(Seq::<u8>::empty()).len() == 0);
        assert(after_spaces(end) == after_spaces(end.skip(1)));
    }
}

/// One line of claims after another.
proof fn lemma_claims_line(line: Seq<u8>, rest: Seq<u8>, c: Claims)
    requires
        one_line(line),
    ensures
        claims_in(line_and_rest(line, rest), c) == claims_in(rest, after_line(c, line.push(CR))),
{
    lemma_first_line(line, rest);
    let head = line_and_rest(line, rest);
    assert(head.take(line.len() as int + 1) =~= line.push(CR));
}

/// A line that begins otherwise claims nothing.
proof fn lemma_no_claim(line: Seq<u8>, c: Claims)
    requires
        line.len() > 0,
        lower(line[0]) != 0x78,
    ensures
        after_line(c, line) == c,
{
    reveal_strlit("x-demiurge-kv-handle:");
    reveal_strlit("x-demiurge-kv-bytes:");
    let handle = ascii("x-demiurge-kv-handle:"@);
    let bytes = ascii("x-demiurge-kv-bytes:"@);
    assert(lower(handle[0]) == 0x78 && lower(bytes[0]) == 0x78);
    if claims_under(line, handle) {
        assert(line.take(handle.len() as int)[0] == line[0]);
        assert(false);
    }
    if claims_under(line, bytes) {
        assert(line.take(bytes.len() as int)[0] == line[0]);
        assert(false);
    }
}

/// The claims of the two headers.
proof fn lemma_claims(written: Seq<u8>, front: Seq<u8>, digits: Seq<u8>, c: Claims)
    requires
        forall|i: int| 0 <= i < front.len() ==> #[trigger] front[i] == 0x20,
        digits.len() > 0,
        forall|i: int| 0 <= i < digits.len() ==> is_digit(#[trigger] digits[i]),
        0 < decimal(digits) <= u64::MAX,
    ensures
        eq_ignoring_case(written, ascii("x-demiurge-kv-handle:"@)) ==> after_line(
            c,
            (written + (front + digits)).push(CR),
        ) == (Claims { handle: Some(decimal(digits) as u64), ..c }),
        eq_ignoring_case(written, ascii("x-demiurge-kv-bytes:"@)) ==> after_line(
            c,
            (written + (front + digits)).push(CR),
        ) == (Claims { bytes: Some(decimal(digits) as u64), ..c }),
{
    reveal_strlit("x-demiurge-kv-handle:");
    reveal_strlit("x-demiurge-kv-bytes:");
    let handle = ascii("x-demiurge-kv-handle:"@);
    let bytes = ascii("x-demiurge-kv-bytes:"@);
    let line = (written + (front + digits)).push(CR);
    lemma_spaced(front, digits);
    let n = written.len() as int;
    assert(line.take(n) =~= written);
    assert(line.skip(n) =~= front + digits + seq![CR]);
    if eq_ignoring_case(written, bytes) {
        assert(lower(handle[14]) == 0x68 && lower(bytes[14]) == 0x62);
        if claims_under(line, handle) {
            assert(line.take(handle.len() as int)[14] == line[14]);
            assert(line[14] == written[14]);
            assert(lower(written[14]) == lower(bytes[14]));
            assert(false);
        }
    }
}

/// A hand-off announced in two headers of a response is read back: its handle and its size, under
/// the request and the source that the caller knows, whatever the body holds.
pub proof fn announced_handoff_is_read_back(
    status: Seq<u8>,
    first: Seq<u8>,
    first_space: Seq<u8>,
    handle: Seq<u8>,
    second: Seq<u8>,
    second_space: Seq<u8>,
    size: Seq<u8>,
    body: Seq<u8>,
    request_id: u64,
    source: Seq<char>,
)
    requires
        one_line(status),
        status.len() > 0,
        lower(status[0]) != 0x78,
        eq_ignoring_case(first, ascii("x-demiurge-kv-handle:"@)),
        eq_ignoring_case(second, ascii("x-demiurge-kv-bytes:"@)),
        one_line(first),
        one_line(second),
        forall|i: int| 0 <= i < first_space.len() ==> #[trigger] first_space[i] == 0x20,
        forall|i: int| 0 <= i < second_space.len() ==> #[trigger] second_space[i] == 0x20,
        handle.len() > 0,
        forall|i: int| 0 <= i < handle.len() ==> is_digit(#[trigger] handle[i]),
        0 < decimal(handle) <= u64::MAX,
        size.len() > 0,
        forall|i: int| 0 <= i < size.len() ==> is_digit(#[trigger] size[i]),
        0 < decimal(size) <= u64::MAX,
    ensures
        announced(
            line_and_rest(
                status,
                line_and_rest(
                    first + (first_space + handle),
                    line_and_rest(second + (second_space + size), line_and_rest(Seq::empty(), body)),
                ),
            ),
            request_id,
            source,
        ) == Some(
            Handoff {
                request_id,
                handle: decimal(handle) as u64,
                byte_len: decimal(size) as u64,
                source,
                decode: None,
            },
        ),
{
    let none = Claims { handle: None, bytes: None };
    let a = first + (first_space + handle);
    let b = second + (second_space + size);
    lemma_line_of(first, first_space, handle);
    lemma_line_of(second, second_space, size);
    reveal_strlit("x-demiurge-kv-handle:");
    reveal_strlit("x-demiurge-kv-bytes:");
    let blank = line_and_rest(Seq::<u8>::empty(), Seq::<u8>::empty());
    let head = line_and_rest(status, line_and_rest(a, line_and_rest(b, blank)));
    let whole = line_and_rest(
        status,
        line_and_rest(a, line_and_rest(b, line_and_rest(Seq::empty(), body))),
    );
    lemma_headers(status, a, b, body);
    assert(headers_of(whole) == head);
    let status_line = status.push(CR);
    assert(status_line[0] == status[0]);
    lemma_claims_line(status, line_and_rest(a, line_and_rest(b, blank)), none);
    lemma_no_claim(status_line, none);
    lemma_claims_line(a, line_and_rest(b, blank), none);
    lemma_claims(first, first_space, handle, none);
    let c = Claims { handle: Some(decimal(handle) as u64), bytes: None };
    lemma_claims_line(b, blank, c);
    lemma_claims(second, second_space, size, c);
    let d = Claims { handle: Some(decimal(handle) as u64), bytes: Some(decimal(size) as u64) };
    lemma_claims_line(Seq::empty(), Seq::empty(), d);
    lemma_no_claim(Seq::<u8>::empty().push(CR), d);
    assert(claims_in(Seq::empty(), d) == d);
}

proof fn lemma_line_of(name: Seq<u8>, front: Seq<u8>, digits: Seq<u8>)
    requires
        one_line(name),
        forall|i: int| 0 <= i < front.len() ==> #[trigger] front[i] == 0x20,
        forall|i: int| 0 <= i < digits.len() ==> is_digit(#[trigger] digits[i]),
    ensures
        one_line(name + (front + digits)),
{
    let line = name + (front + digits);
    assert forall|i: int| 0 <= i < line.len() implies #[trigger] line[i] != LF by {
        if i < name.len() {
            assert(line[i] == name[i]);
        } else if i < name.len() + front.len() {
            assert(line[i] == front[i - name.len()]);
        } else {
            assert(line[i] == digits[i - name.len() - front.len()]);
        }
    }
}

/// Where the headers end.
proof fn lemma_headers(status: Seq<u8>, a: Seq<u8>, b: Seq<u8>, body: Seq<u8>)
    requires
        one_line(status),
        one_line(a),
        one_line(b),
        a.len() > 0,
        b.len() > 0,
    ensures
        ({
            let blank = line_and_rest(Seq::<u8>::empty(), Seq::<u8>::empty());
            let head = line_and_rest(status, line_and_rest(a, line_and_rest(b, blank)));
            let whole = line_and_rest(
                status,
                line_and_rest(a, line_and_rest(b, line_and_rest(Seq::empty(), body))),
            );
            headers_of(whole) == head
        }),
{
    let blank = line_and_rest(Seq::<u8>::empty(), Seq::<u8>::empty());
    let head = line_and_rest(status, line_and_rest(a, line_and_rest(b, blank)));
    let whole = line_and_rest(
        status,
        line_and_rest(a, line_and_rest(b, line_and_rest(Seq::empty(), body))),
    );
    reveal_strlit("\r\n\r\n");
    let mark = ascii("\r\n\r\n"@);
    assert(mark =~= seq![CR, LF, CR, LF]);
    let p = status.len() as int + 1;
    let q = p + a.len() + 2;
    let r = q + b.len() + 2;
    let at = r - 1;
    assert(whole[at] == CR && whole[at + 1] == LF && whole[at + 2] == CR && whole[at + 3] == LF);
    assert(stands_at(whole, mark, at)) by {
        assert(whole.subrange(at, at + 4) =~= mark);
    }
    // Line feeds before it stand further apart.
    assert forall|i: int| 0 <= i < at + 3 && #[trigger] whole[i] == LF implies i == p || i == q || i
        == r by {
        if i < status.len() {
            assert(whole[i] == status[i]);
        } else if p < i < p + 1 + a.len() {
            assert(whole[i] == a[i - p - 1]);
        } else if q < i < q + 1 + b.len() {
            assert(whole[i] == b[i - q - 1]);
        }
    }
    assert forall|j: int| 0 <= j < at implies !stands_at(whole, mark, j) by {
        if stands_at(whole, mark, j) {
            assert(whole.subrange(j, j + 4)[1] == mark[1]);
            assert(whole.subrange(j, j + 4)[3] == mark[3]);
            assert(whole[j + 1] == LF && whole[j + 3] == LF);
        }
    }
    lemma_first_at(whole, mark, 0);
    assert(whole.take(at + 4) =~= head);
}

/// A line of a header with a decimal number.
pub open spec fn number_line(name: Seq<u8>, digits: Seq<u8>) -> Seq<u8> {
    name + seq![COLON] + digits
}

/// Some decimal digits for a number of 64 bits.
pub open spec fn writes_number(digits: Seq<u8>) -> bool {
    &&& digits.len() > 0
    &&& forall|i: int| 0 <= i < digits.len() ==> is_digit(#[trigger] digits[i])
    &&& decimal(digits) <= u64::MAX
}

proof fn lemma_number_line(name: Seq<u8>, digits: Seq<u8>, rest: Seq<u8>)
    requires
        one_line(name),
        writes_number(digits),
    ensures
        one_line(number_line(name, digits)),
        header_value(line_and_rest(number_line(name, digits), rest), name) == Some(digits),
        number(digits) == Some(decimal(digits) as u64),
{
    let line = number_line(name, digits);
    assert forall|i: int| 0 <= i < line.len() implies #[trigger] line[i] != LF by {
        if i < name.len() {
            assert(line[i] == name[i]);
        } else if i > name.len() {
            assert(line[i] == digits[i - name.len() - 1]);
        }
    }
    assert(one_line(digits)) by {
        assert forall|i: int| 0 <= i < digits.len() implies #[trigger] digits[i] != LF by {
            assert(is_digit(digits[i]));
        }
    }
    header_is_read_back(name, name, digits, rest);
    assert(is_digit(digits[0]) && is_digit(digits[digits.len() - 1]));
    trimming_drops_the_ends(Seq::empty(), digits, Seq::empty());
    assert(Seq::<u8>::empty() + digits + Seq::<u8>::empty() =~= digits);
    digits_are_read_back(digits, Seq::empty());
    assert(digits + Seq::<u8>::empty() =~= digits);
    reveal_strlit("0x");
    reveal_strlit("0X");
    if begins_with(digits, ascii("0x"@)) || begins_with(digits, ascii("0X"@)) {
        assert(is_digit(digits[1]));
        assert(digits.take(2)[1] == digits[1]);
        assert(ascii("0x"@)[1] == 0x78 && ascii("0X"@)[1] == 0x58);
        assert(false);
    }
}

proof fn lemma_passed(name: Seq<u8>, line: Seq<u8>, rest: Seq<u8>, i: int)
    requires
        one_line(line),
        0 <= i < name.len(),
        i < line.len(),
        lower(line[i]) != lower(name[i]),
    ensures
        header_value(line_and_rest(line, rest), name) == header_value(rest, name),
{
    if line.len() > name.len() && eq_ignoring_case(line.take(name.len() as int), name) {
        assert(line.take(name.len() as int)[i] == line[i]);
        assert(false);
    }
    other_lines_are_passed_over(name, line, rest);
}

/// An identity is read back: tenant, group and fingerprint from the three headers that carry them.
pub proof fn identity_is_read_back(
    request: Seq<u8>,
    tenant: Seq<u8>,
    group: Seq<u8>,
    content: Seq<u8>,
    rest: Seq<u8>,
)
    requires
        one_line(request),
        request.len() > 0,
        lower(request[0]) != 0x78,
        writes_number(tenant),
        writes_number(group),
        writes_number(content),
    ensures
        identity(
            line_and_rest(
                request,
                line_and_rest(
                    number_line(ascii("x-demiurge-tenant"@), tenant),
                    line_and_rest(
                        number_line(ascii("x-demiurge-group"@), group),
                        line_and_rest(number_line(ascii("x-demiurge-prefix-fp"@), content), rest),
                    ),
                ),
            ),
        ) == Some(
            RequestIdentityView {
                tenant: decimal(tenant) as u64,
                group: decimal(group) as u64,
                content: decimal(content) as u64,
            },
        ),
{
    reveal_strlit("x-demiurge-tenant");
    reveal_strlit("x-demiurge-group");
    reveal_strlit("x-demiurge-prefix-fp");
    let (a, b, c) = (
        ascii("x-demiurge-tenant"@),
        ascii("x-demiurge-group"@),
        ascii("x-demiurge-prefix-fp"@),
    );
    assert(one_line(a) && one_line(b) && one_line(c));
    assert(lower(a[0]) == 0x78 && lower(b[0]) == 0x78 && lower(c[0]) == 0x78);
    assert(lower(a[11]) == 0x74 && lower(b[11]) == 0x67 && lower(c[11]) == 0x70);
    let third = line_and_rest(number_line(c, content), rest);
    let second = line_and_rest(number_line(b, group), third);
    let first = line_and_rest(number_line(a, tenant), second);
    lemma_number_line(a, tenant, second);
    lemma_number_line(b, group, third);
    lemma_number_line(c, content, rest);
    lemma_passed(a, request, first, 0);
    lemma_passed(b, request, first, 0);
    lemma_passed(c, request, first, 0);
    assert(number_line(a, tenant)[11] == a[11]);
    assert(number_line(b, group)[11] == b[11]);
    lemma_passed(b, number_line(a, tenant), second, 11);
    lemma_passed(c, number_line(a, tenant), second, 11);
    lemma_passed(c, number_line(b, group), third, 11);
}

} // verus!
