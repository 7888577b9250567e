//! Text on a terminal: what of it shows, how wide it is, and lines.

use vstd::prelude::*;
use vstd::string::*;
use crate::text::{chars_of, digit, number_text, split, until};

verus! {

/// Starts an escape sequence.
pub const ESCAPE: char = '\x1b';

/// Whether an escape sequence is open at the end of a text; it ends with the letter `m`.
pub open spec fn open_at_end(text: Seq<char>) -> bool
    decreases text.len(),
{
    if text.len() == 0 {
        false
    } else if open_at_end(text.drop_last()) {
        text.last() != 'm'
    } else {
        text.last() == ESCAPE
    }
}

/// What a text shows: all of it but its escape sequences.
pub open spec fn visible(text: Seq<char>) -> Seq<char>
    decreases text.len(),
{
    if text.len() == 0 {
        Seq::empty()
    } else if open_at_end(text.drop_last()) || text.last() == ESCAPE {
        visible(text.drop_last())
    } else {
        visible(text.drop_last()).push(text.last())
    }
}

/// Columns of a text.
pub open spec fn columns(text: Seq<char>) -> nat {
    visible(text).len()
}

/// Columns that a text takes on a terminal.
pub fn visible_len(text: &str) -> (r: usize)
    ensures
        r == columns(text@),
{
    let chars: Vec<char> = chars_of(text);
    let n: usize = chars.len();
    let mut taken: usize = 0;
    let mut escaped: bool = false;
    for i in 0..n
        invariant
            chars@ == text@,
            n == chars@.len(),
            taken <= i,
            taken == columns(text@.take(i as int)),
            escaped == open_at_end(text@.take(i as int)),
    {
        assert(text@.take(i + 1).drop_last() =~= text@.take(i as int));
        let ch: char = chars[i];
        if escaped {
            escaped = ch != 'm';
        } else if ch == ESCAPE {
            escaped = true;
        } else {
            taken = taken + 1;
        }
    }
    assert(text@.take(n as int) =~= text@);
    taken
}

/// Whether a text is on one line, and without escape sequences unless they are allowed.
pub open spec fn made_of_line(text: Seq<char>, escapes: bool) -> bool
    decreases text.len(),
{
    text.len() == 0 || (text.last() != '\n' && (escapes || text.last() != ESCAPE) && made_of_line(
        text.drop_last(),
        escapes,
    ))
}

/// Whether a text shows as it is, on one line.
pub open spec fn printable(text: Seq<char>) -> bool {
    made_of_line(text, false)
}

/// Whether a text is on one line.
pub open spec fn one_line(text: Seq<char>) -> bool {
    made_of_line(text, true)
}

/// A text in which no character ends the line or starts an escape sequence is printable.
pub proof fn lemma_printable(text: Seq<char>)
    ensures
        printable(text) <==> forall|i: int|
            0 <= i < text.len() ==> #[trigger] text[i] != '\n' && text[i] != ESCAPE,
    decreases text.len(),
{
    if text.len() > 0 {
        let rest = text.drop_last();
        lemma_printable(rest);
        if printable(text) {
            assert forall|i: int| 0 <= i < text.len() implies #[trigger] text[i] != '\n' && text[i]
                != ESCAPE by {
                if i < rest.len() {
                    assert(rest[i] == text[i]);
                }
            }
        } else {
            if text.last() != '\n' && text.last() != ESCAPE {
                let i = choose|i: int|
                    0 <= i < rest.len() && !(#[trigger] rest[i] != '\n' && rest[i] != ESCAPE);
                assert(text[i] == rest[i]);
            } else {
                assert(text[text.len() - 1] == text.last());
            }
        }
    }
}

/// Texts on one line make one line together.
pub proof fn lemma_joined_line(a: Seq<char>, b: Seq<char>, escapes: bool)
    requires
        made_of_line(a, escapes),
        made_of_line(b, escapes),
    ensures
        made_of_line(a + b, escapes),
    decreases b.len(),
{
    if b.len() > 0 {
        lemma_joined_line(a, b.drop_last(), escapes);
        assert((a + b).drop_last() =~= a + b.drop_last());
    } else {
        assert(a + b =~= a);
    }
}

/// A printable text shows as it is.
pub proof fn lemma_shows_as_is(text: Seq<char>)
    requires
        printable(text),
    ensures
        one_line(text),
        visible(text) == text,
        !open_at_end(text),
    decreases text.len(),
{
    if text.len() > 0 {
        lemma_shows_as_is(text.drop_last());
        assert(text.drop_last().push(text.last()) =~= text);
    } else {
        assert(visible(text) =~= text);
    }
}

/// What two texts show together, where no escape sequence runs over their border.
pub proof fn lemma_joined_visible(a: Seq<char>, b: Seq<char>)
    requires
        !open_at_end(a),
    ensures
        visible(a + b) == visible(a) + visible(b),
        open_at_end(a + b) == open_at_end(b),
    decreases b.len(),
{
    if b.len() > 0 {
        lemma_joined_visible(a, b.drop_last());
        assert((a + b).drop_last() =~= a + b.drop_last());
        assert(visible(a) + visible(b.drop_last()).push(b.last()) =~= (visible(a) + visible(
            b.drop_last(),
        )).push(b.last()));
    } else {
        assert(a + b =~= a);
        assert(visible(a) + visible(b) =~= visible(a));
    }
}

/// Texts that show as they are do so together.
pub proof fn lemma_joined_printable(a: Seq<char>, b: Seq<char>)
    requires
        printable(a),
        printable(b),
    ensures
        printable(a + b),
{
    lemma_joined_line(a, b, false);
}

/// Lines, each with its end.
pub open spec fn text_of(lines: Seq<Seq<char>>) -> Seq<char>
    decreases lines.len(),
{
    if lines.len() == 0 {
        Seq::empty()
    } else {
        lines[0] + seq!['\n'] + text_of(lines.drop_first())
    }
}

/// The texts behind a list of strings.
pub open spec fn string_views(strings: Seq<String>) -> Seq<Seq<char>> {
    strings.map_values(|s: String| s@)
}

/// Puts lines together, each with its end.
pub fn join_lines(lines: &Vec<String>) -> (r: String)
    ensures
        r@ == text_of(string_views(lines@)),
{
    let ghost all = string_views(lines@);
    let n: usize = lines.len();
    let mut out: String = String::new();
    assert(all.skip(0) =~= all);
    assert(out@ + text_of(all) =~= text_of(all));
    for i in 0..n
        invariant
            n == lines@.len(),
            all == string_views(lines@),
            out@ + text_of(all.skip(i as int)) == text_of(all),
    {
        let ghost before = out@;
        let ghost rest = all.skip(i as int);
        assert(rest[0] == lines@[i as int]@);
        assert(rest.drop_first() =~= all.skip(i + 1));
        out.append(lines[i].as_str());
        out.append("\n");
        proof {
            reveal_strlit("\n");
            assert("\n"@ =~= seq!['\n']);
            assert(out@ + text_of(all.skip(i + 1)) =~= before + text_of(rest));
        }
    }
    assert(out@ + text_of(all.skip(n as int)) =~= out@);
    out
}

/// A text on one line holds no end of a line.
proof fn lemma_until_end(line: Seq<char>, rest: Seq<char>)
    requires
        forall|i: int| 0 <= i < line.len() ==> #[trigger] line[i] != '\n',
    ensures
        until(line + seq!['\n'] + rest, '\n') == line.len(),
    decreases line.len(),
{
    let all = line + seq!['\n'] + rest;
    if line.len() > 0 {
        assert(all[0] == line[0]);
        let tail = line.drop_first();
        assert forall|i: int| 0 <= i < tail.len() implies #[trigger] tail[i] != '\n' by {
            assert(tail[i] == line[i + 1]);
        }
        lemma_until_end(tail, rest);
        assert(all.drop_first() =~= tail + seq!['\n'] + rest);
    } else {
        assert(all[0] == '\n');
    }
}

proof fn lemma_no_end(line: Seq<char>)
    requires
        one_line(line),
    ensures
        forall|i: int| 0 <= i < line.len() ==> #[trigger] line[i] != '\n',
    decreases line.len(),
{
    if line.len() > 0 {
        let rest = line.drop_last();
        lemma_no_end(rest);
        assert forall|i: int| 0 <= i < line.len() implies #[trigger] line[i] != '\n' by {
            if i < rest.len() {
                assert(rest[i] == line[i]);
            }
        }
    }
}

/// Lines put together fall apart into the same lines.
pub proof fn lemma_lines_of_text(lines: Seq<Seq<char>>)
    requires
        forall|i: int| 0 <= i < lines.len() ==> one_line(#[trigger] lines[i]),
    ensures
        split(text_of(lines), '\n') == lines.push(Seq::empty()),
    decreases lines.len(),
{
    let all = text_of(lines);
    if lines.len() == 0 {
        assert(split(all, '\n') =~= lines.push(Seq::empty()));
    } else {
        let rest = lines.drop_first();
        assert forall|i: int| 0 <= i < rest.len() implies one_line(#[trigger] rest[i]) by {
            assert(rest[i] == lines[i + 1]);
        }
        lemma_lines_of_text(rest);
        assert(one_line(lines[0]));
        lemma_no_end(lines[0]);
        lemma_until_end(lines[0], text_of(rest));
        let n = lines[0].len();
        assert(all.take(n as int) =~= lines[0]);
        assert(all.skip(n as int + 1) =~= text_of(rest));
        assert(seq![lines[0]] + rest.push(Seq::empty()) =~= lines.push(Seq::empty()));
    }
}

/// What lines show together is what each of them shows.
pub proof fn lemma_visible_lines(lines: Seq<Seq<char>>, shown: Seq<Seq<char>>)
    requires
        lines.len() == shown.len(),
        forall|i: int|
            0 <= i < lines.len() ==> visible(#[trigger] lines[i]) == shown[i] && !open_at_end(
                lines[i],
            ),
    ensures
        visible(text_of(lines)) == text_of(shown),
    decreases lines.len(),
{
    if lines.len() == 0 {
        assert(visible(text_of(lines)) =~= text_of(shown));
    } else {
        let rest = lines.drop_first();
        let tail = shown.drop_first();
        assert forall|i: int| 0 <= i < rest.len() implies visible(#[trigger] rest[i]) == tail[i]
            && !open_at_end(rest[i]) by {
            assert(rest[i] == lines[i + 1]);
            assert(tail[i] == shown[i + 1]);
        }
        lemma_visible_lines(rest, tail);
        let end = seq!['\n'];
        assert(visible(lines[0]) == shown[0]);
        reveal_with_fuel(visible, 2);
        reveal_with_fuel(open_at_end, 2);
        assert(end.drop_last() =~= Seq::<char>::empty());
        assert(visible(end) =~= end);
        lemma_joined_visible(lines[0], end);
        lemma_joined_visible(lines[0] + end, text_of(rest));
    }
}

/// Whether a text occurs in another.
pub open spec fn occurs(needle: Seq<char>, text: Seq<char>) -> bool {
    exists|before: Seq<char>, after: Seq<char>| #[trigger] (before + needle + after) == text
}

/// What occurs in a part occurs in the whole.
pub proof fn lemma_occurs_in_whole(
    needle: Seq<char>,
    part: Seq<char>,
    before: Seq<char>,
    after: Seq<char>,
)
    requires
        occurs(needle, part),
    ensures
        occurs(needle, before + part + after),
{
    let (a, b) = choose|a: Seq<char>, b: Seq<char>| #[trigger] (a + needle + b) == part;
    assert((before + a) + needle + (b + after) =~= before + part + after);
}

/// A text occurs in itself.
pub proof fn lemma_occurs(text: Seq<char>)
    ensures
        occurs(text, text),
{
    assert(Seq::empty() + text + Seq::empty() =~= text);
}

/// What occurs in a line occurs in the text.
pub proof fn lemma_occurs_in_text(needle: Seq<char>, lines: Seq<Seq<char>>, i: int)
    requires
        0 <= i < lines.len(),
        occurs(needle, lines[i]),
    ensures
        occurs(needle, text_of(lines)),
    decreases i,
{
    let rest = lines.drop_first();
    if i == 0 {
        lemma_occurs_in_whole(needle, lines[0], Seq::empty(), seq!['\n'] + text_of(rest));
        assert(Seq::empty() + lines[0] + (seq!['\n'] + text_of(rest)) =~= text_of(lines));
    } else {
        assert(rest[i - 1] == lines[i]);
        lemma_occurs_in_text(needle, rest, i - 1);
        lemma_occurs_in_whole(needle, text_of(rest), lines[0] + seq!['\n'], Seq::empty());
        assert(lines[0] + seq!['\n'] + text_of(rest) + Seq::empty() =~= text_of(lines));
    }
}

/// A digit is one printable character.
pub proof fn lemma_digit(d: nat)
    ensures
        printable(digit(d)),
        digit(d).len() == 1,
{
    reveal_strlit("0");
    reveal_strlit("1");
    reveal_strlit("2");
    reveal_strlit("3");
    reveal_strlit("4");
    reveal_strlit("5");
    reveal_strlit("6");
    reveal_strlit("7");
    reveal_strlit("8");
    reveal_strlit("9");
    reveal_with_fuel(made_of_line, 2);
}

/// A number is printable and has no more digits than it needs.
pub proof fn lemma_number_text(n: nat, limit: nat, digits: nat)
    requires
        n < limit,
        limit == power_of_ten(digits),
        digits > 0,
    ensures
        printable(number_text(n)),
        0 < number_text(n).len() <= digits,
    decreases digits,
{
    lemma_digit(n % 10);
    if n >= 10 {
        assert(power_of_ten(digits) == 10 * power_of_ten((digits - 1) as nat));
        if digits == 1 {
            assert(power_of_ten(0) == 1);
        }
        lemma_number_text(n / 10, power_of_ten((digits - 1) as nat), (digits - 1) as nat);
        lemma_joined_printable(number_text(n / 10), digit(n % 10));
    }
}

/// Ten to a power.
pub open spec fn power_of_ten(n: nat) -> nat
    decreases n,
{
    if n == 0 {
        1
    } else {
        10 * power_of_ten((n - 1) as nat)
    }
}

/// A 64-bit number is printable and has at most twenty digits.
pub proof fn lemma_u64_text(n: nat)
    requires
        n <= u64::MAX,
    ensures
        printable(number_text(n)),
        0 < number_text(n).len() <= 20,
{
    reveal_with_fuel(power_of_ten, 21);
    lemma_number_text(n, power_of_ten(20), 20);
}

} // verus!
