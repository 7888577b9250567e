//! Text: trimming, splitting and comparing characters.

use vstd::prelude::*;
use vstd::string::*;

verus! {

/// Characters that count as white space.
pub open spec fn is_space(c: char) -> bool {
    let u = c as u32;
    ||| 0x09 <= u <= 0x0d
    ||| u == 0x20
    ||| u == 0x85
    ||| u == 0xa0
    ||| u == 0x1680
    ||| 0x2000 <= u <= 0x200a
    ||| u == 0x2028
    ||| u == 0x2029
    ||| u == 0x202f
    ||| u == 0x205f
    ||| u == 0x3000
}

fn space(c: char) -> (r: bool)
    ensures
        r == is_space(c),
{
    let u: u32 = c as u32;
    (0x09 <= u && u <= 0x0d) || u == 0x20 || u == 0x85 || u == 0xa0 || u == 0x1680 || (0x2000 <= u
        && u <= 0x200a) || u == 0x2028 || u == 0x2029 || u == 0x202f || u == 0x205f || u == 0x3000
}

/// Text without leading white space.
pub open spec fn trim_start(text: Seq<char>) -> Seq<char>
    decreases text.len(),
{
    if text.len() > 0 && is_space(text[0]) {
        trim_start(text.drop_first())
    } else {
        text
    }
}

/// Text without trailing white space.
pub open spec fn trim_end(text: Seq<char>) -> Seq<char>
    decreases text.len(),
{
    if text.len() > 0 && is_space(text.last()) {
        trim_end(text.drop_last())
    } else {
        text
    }
}

/// Text without white space at either end.
pub open spec fn trim(text: Seq<char>) -> Seq<char> {
    trim_end(trim_start(text))
}

/// The characters of a text.
pub fn chars_of(text: &str) -> (r: Vec<char>)
    ensures
        r@ == text@,
{
    let mut out: Vec<char> = Vec::new();
    for c in it: text.chars()
        invariant
            it.seq() == text@,
            out@ =~= it.seq().take(it.index() as int),
    {
        out.push(c);
    }
    assert(out@ =~= text@);
    out
}

/// Drops white space at both ends.
pub fn trim_text(text: &str) -> (r: &str)
    ensures
        r@ == trim(text@),
{
    let chars: Vec<char> = chars_of(text);
    let n: usize = chars.len();
    let mut start: usize = 0;
    assert(text@.skip(0) =~= text@);
    while start < n && space(chars[start])
        invariant
            chars@ == text@,
            n == text@.len(),
            start <= n,
            trim_start(text@) == trim_start(text@.skip(start as int)),
        decreases n - start,
    {
        assert(text@.skip(start as int)[0] == text@[start as int]);
        assert(text@.skip(start as int).drop_first() =~= text@.skip(start + 1));
        start = start + 1;
    }
    assert(start < n ==> text@.skip(start as int)[0] == text@[start as int]);
    let ghost front = text@.skip(start as int);
    assert(trim_start(text@) == front);
    let mut end: usize = n;
    assert(text@.subrange(start as int, end as int) =~= front);
    while start < end && space(chars[end - 1])
        invariant
            chars@ == text@,
            n == text@.len(),
            start <= end <= n,
            trim_end(front) == trim_end(text@.subrange(start as int, end as int)),
        decreases end,
    {
        let ghost now = text@.subrange(start as int, end as int);
        assert(now.last() == text@[end - 1]);
        assert(now.drop_last() =~= text@.subrange(start as int, end - 1));
        end = end - 1;
    }
    assert(start < end ==> text@.subrange(start as int, end as int).last() == text@[end - 1]);
    text.substring_char(start, end)
}

/// Where the first `sep` stands, or the length if it does not occur.
pub open spec fn until(text: Seq<char>, sep: char) -> nat
    decreases text.len(),
{
    if text.len() == 0 || text[0] == sep {
        0
    } else {
        1 + until(text.drop_first(), sep)
    }
}

pub proof fn lemma_until(text: Seq<char>, sep: char)
    ensures
        until(text, sep) <= text.len(),
        until(text, sep) < text.len() ==> text[until(text, sep) as int] == sep,
    decreases text.len(),
{
    if text.len() > 0 && text[0] != sep {
        lemma_until(text.drop_first(), sep);
    }
}

fn position_of(chars: &Vec<char>, from: usize, sep: char) -> (r: usize)
    requires
        from <= chars@.len(),
    ensures
        r == from + until(chars@.skip(from as int), sep),
        r <= chars@.len(),
{
    let mut i: usize = from;
    while i < chars.len() && chars[i] != sep
        invariant
            from <= i <= chars@.len(),
            from + until(chars@.skip(from as int), sep) == i + until(chars@.skip(i as int), sep),
        decreases chars@.len() - i,
    {
        assert(chars@.skip(i as int)[0] == chars@[i as int]);
        assert(chars@.skip(i as int).drop_first() =~= chars@.skip(i + 1));
        i = i + 1;
    }
    assert(i < chars@.len() ==> chars@.skip(i as int)[0] == chars@[i as int]);
    i
}

/// The pieces of a text between separators; there is always at least one.
pub open spec fn split(text: Seq<char>, sep: char) -> Seq<Seq<char>>
    decreases text.len(),
{
    let n = until(text, sep);
    if n >= text.len() {
        seq![text]
    } else {
        seq![text.take(n as int)] + split(text.skip(n as int + 1), sep)
    }
}

/// The texts behind a list of strings.
pub open spec fn views(strings: Seq<&str>) -> Seq<Seq<char>> {
    Seq::new(strings.len(), |i: int| strings[i]@)
}

/// Splits a text at every separator.
pub fn split_text<'a>(text: &'a str, sep: char) -> (r: Vec<&'a str>)
    ensures
        views(r@) == split(text@, sep),
{
    let chars: Vec<char> = chars_of(text);
    let n: usize = chars.len();
    let mut out: Vec<&'a str> = Vec::new();
    let mut from: usize = 0;
    assert(text@.skip(0) =~= text@);
    assert(views(out@) + split(text@.skip(0), sep) =~= split(text@, sep));
    loop
        invariant_except_break
            chars@ == text@,
            n == text@.len(),
            from <= n,
            views(out@) + split(text@.skip(from as int), sep) == split(text@, sep),
        ensures
            views(out@) == split(text@, sep),
        decreases n - from,
    {
        let ghost rest = text@.skip(from as int);
        let ghost before = views(out@);
        let at: usize = position_of(&chars, from, sep);
        let piece: &'a str = text.substring_char(from, at);
        out.push(piece);
        assert(views(out@) =~= before.push(piece@));
        if at >= n {
            assert(piece@ =~= rest);
            assert(views(out@) =~= before + seq![rest]);
            break;
        }
        assert(piece@ =~= rest.take(at - from));
        assert(rest.skip(at - from + 1) =~= text@.skip(at + 1));
        assert(before + (seq![piece@] + split(text@.skip(at + 1), sep)) =~= views(out@) + split(
            text@.skip(at + 1),
            sep,
        ));
        from = at + 1;
    }
    out
}

/// The pieces, trimmed, without empty ones.
pub open spec fn solid(pieces: Seq<Seq<char>>) -> Seq<Seq<char>>
    decreases pieces.len(),
{
    if pieces.len() == 0 {
        Seq::empty()
    } else {
        let before = solid(pieces.drop_last());
        let piece = trim(pieces.last());
        if piece.len() == 0 {
            before
        } else {
            before.push(piece)
        }
    }
}

/// The trimmed, non-empty items of a list.
pub open spec fn items(text: Seq<char>, sep: char) -> Seq<Seq<char>> {
    solid(split(text, sep))
}

/// The trimmed, non-empty items of a list.
pub fn list_items<'a>(text: &'a str, sep: char) -> (r: Vec<&'a str>)
    ensures
        views(r@) == items(text@, sep),
{
    let pieces: Vec<&'a str> = split_text(text, sep);
    let ghost all = views(pieces@);
    let mut out: Vec<&'a str> = Vec::new();
    let n: usize = pieces.len();
    assert(views(out@) =~= solid(all.take(0)));
    for i in 0..n
        invariant
            n == pieces@.len(),
            all == views(pieces@),
            views(out@) == solid(all.take(i as int)),
    {
        let ghost before = views(out@);
        assert(all.take(i + 1).drop_last() =~= all.take(i as int));
        assert(all.take(i + 1).last() == pieces@[i as int]@);
        let piece: &'a str = trim_text(pieces[i]);
        if !piece.is_empty() {
            out.push(piece);
            assert(views(out@) =~= before.push(piece@));
        }
    }
    assert(all.take(n as int) =~= all);
    out
}

/// Whether two texts are the same.
pub fn same_text(a: &str, b: &str) -> (r: bool)
    ensures
        r == (a@ == b@),
{
    let left: String = a.to_owned();
    let right: String = b.to_owned();
    left == right
}

/// The code of a character, ASCII letters in lower case.
pub open spec fn lower_code(c: char) -> u32 {
    if 0x41 <= c as u32 <= 0x5a {
        (c as u32 + 0x20) as u32
    } else {
        c as u32
    }
}

/// Whether a text, its ASCII letters in lower case, is `word`.
pub open spec fn lowers_to(text: Seq<char>, word: Seq<char>) -> bool {
    &&& text.len() == word.len()
    &&& forall|i: int| 0 <= i < text.len() ==> lower_code(#[trigger] text[i]) == word[i] as u32
}

/// Whether a text, its ASCII letters in lower case, is `word`.
pub fn is_word(text: &str, word: &str) -> (r: bool)
    ensures
        r == lowers_to(text@, word@),
{
    let a: Vec<char> = chars_of(text);
    let b: Vec<char> = chars_of(word);
    if a.len() != b.len() {
        return false;
    }
    let n: usize = a.len();
    for i in 0..n
        invariant
            a@ == text@,
            b@ == word@,
            n == a@.len() == b@.len(),
            forall|j: int| 0 <= j < i ==> lower_code(#[trigger] text@[j]) == word@[j] as u32,
    {
        let u: u32 = a[i] as u32;
        let l: u32 = if 0x41 <= u && u <= 0x5a {
            u + 0x20
        } else {
            u
        };
        if l != b[i] as u32 {
            assert(lower_code(text@[i as int]) != word@[i as int] as u32);
            return false;
        }
    }
    true
}

/// A decimal digit.
pub open spec fn digit(d: nat) -> Seq<char> {
    if d == 0 {
        "0"@
    } else if d == 1 {
        "1"@
    } else if d == 2 {
        "2"@
    } else if d == 3 {
        "3"@
    } else if d == 4 {
        "4"@
    } else if d == 5 {
        "5"@
    } else if d == 6 {
        "6"@
    } else if d == 7 {
        "7"@
    } else if d == 8 {
        "8"@
    } else {
        "9"@
    }
}

/// A number in decimal.
pub open spec fn number_text(n: nat) -> Seq<char>
    decreases n,
{
    if n < 10 {
        digit(n)
    } else {
        number_text(n / 10) + digit(n % 10)
    }
}

/// Two texts, one after the other.
pub fn joined(a: &str, b: &str) -> (r: String)
    ensures
        r@ == a@ + b@,
{
    let mut out: String = a.to_owned();
    out.append(b);
    out
}

/// A decimal digit.
pub fn digit_text(d: u64) -> (r: &'static str)
    requires
        d < 10,
    ensures
        r@ == digit(d as nat),
{
    if d == 0 {
        "0"
    } else if d == 1 {
        "1"
    } else if d == 2 {
        "2"
    } else if d == 3 {
        "3"
    } else if d == 4 {
        "4"
    } else if d == 5 {
        "5"
    } else if d == 6 {
        "6"
    } else if d == 7 {
        "7"
    } else if d == 8 {
        "8"
    } else {
        "9"
    }
}

/// A number in decimal.
pub fn decimal_text(n: u64) -> (r: String)
    ensures
        r@ == number_text(n as nat),
    decreases n,
{
    if n < 10 {
        digit_text(n).to_owned()
    } else {
        let mut out: String = decimal_text(n / 10);
        out.append(digit_text(n % 10));
        out
    }
}

} // verus!
