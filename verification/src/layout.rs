//! Laws of the banner's layout: its width, its colours and what it shows.

use vstd::prelude::*;
use crate::admission::AdmitMode;
use crate::banner::{
    admit_text, back_lines, backends_text, banner_lines, border, bytes_text, foot_lines,
    front_lines, gap, kv_lines, lemma_share_parts, line, mib_fits, mode_text, painted, ready_text,
    rebalancer_text, repeated, row_line, row_text, share_text, status_lines, tagline_text,
    tenths_text, title_lines, title_text, xdp_text, GIB, INNER, MIB, WIDTH,
};
use crate::binary64::{lemma_value_order, of_nat, one, parts_of, quotient, zero, Real};
use crate::rcu::is_share;
use crate::router::RouterState;
use crate::terminal::{
    columns, lemma_digit, lemma_joined_line, lemma_joined_printable, lemma_joined_visible,
    lemma_lines_of_text, lemma_occurs, lemma_occurs_in_text, lemma_occurs_in_whole,
    lemma_shows_as_is, lemma_u64_text, lemma_visible_lines, made_of_line, occurs, one_line,
    open_at_end, printable, text_of, visible,
};
use crate::text::{digit, number_text, split};

verus! {

/// Whether a text is a printable one of at most so many characters.
pub open spec fn fits_in(text: Seq<char>, most: nat) -> bool {
    printable(text) && text.len() <= most
}

/// Whether a text shows another, on one line and with no escape sequence left open.
pub open spec fn shows(text: Seq<char>, shown: Seq<char>) -> bool {
    &&& visible(text) == shown
    &&& printable(shown)
    &&& one_line(text)
    &&& !open_at_end(text)
}

proof fn lemma_shows(text: Seq<char>)
    requires
        printable(text),
    ensures
        shows(text, text),
{
    lemma_shows_as_is(text);
}

proof fn lemma_shows_joined(a: Seq<char>, b: Seq<char>, x: Seq<char>, y: Seq<char>)
    requires
        shows(a, x),
        shows(b, y),
    ensures
        shows(a + b, x + y),
{
    lemma_joined_visible(a, b);
    lemma_joined_printable(x, y);
    lemma_joined_line(a, b, true);
}

proof fn lemma_fits_joined(a: Seq<char>, b: Seq<char>, m: nat, n: nat)
    requires
        fits_in(a, m),
        fits_in(b, n),
    ensures
        fits_in(a + b, m + n),
{
    lemma_joined_printable(a, b);
}

proof fn lemma_repeated(text: Seq<char>, n: nat)
    requires
        printable(text),
        text.len() == 1,
    ensures
        printable(repeated(text, n)),
        repeated(text, n).len() == n,
    decreases n,
{
    if n > 0 {
        lemma_repeated(text, (n - 1) as nat);
        lemma_joined_printable(repeated(text, (n - 1) as nat), text);
    }
}

proof fn lemma_gap(n: nat, taken: nat)
    ensures
        printable(gap(n, taken)),
        gap(n, taken).len() == if taken >= n {
            0
        } else {
            (n - taken) as nat
        },
{
    reveal_strlit(" ");
    reveal_with_fuel(made_of_line, 2);
    lemma_repeated(" "@, if taken >= n {
        0
    } else {
        (n - taken) as nat
    });
}

/// Whether a text is an escape sequence that shows nothing.
spec fn shows_nothing(code: Seq<char>) -> bool {
    shows(code, Seq::empty())
}

proof fn lemma_codes()
    ensures
        shows_nothing("\x1b[1;97m"@),
        shows_nothing("\x1b[2m"@),
        shows_nothing("\x1b[2;36m"@),
        shows_nothing("\x1b[1m"@),
        shows_nothing("\x1b[1;32m"@),
        shows_nothing("\x1b[0m"@),
{
    reveal_strlit("\x1b[1;97m");
    reveal_strlit("\x1b[2m");
    reveal_strlit("\x1b[2;36m");
    reveal_strlit("\x1b[1m");
    reveal_strlit("\x1b[1;32m");
    reveal_strlit("\x1b[0m");
    reveal_with_fuel(visible, 9);
    reveal_with_fuel(open_at_end, 9);
    reveal_with_fuel(made_of_line, 9);
}

proof fn lemma_painted(color: bool, code: Seq<char>, text: Seq<char>)
    requires
        shows_nothing(code),
        printable(text),
    ensures
        shows(painted(color, code, text), text),
        occurs(text, painted(color, code, text)),
{
    lemma_codes();
    lemma_shows(text);
    lemma_occurs(text);
    if color {
        lemma_shows_joined(code, text, Seq::empty(), text);
        assert(Seq::empty() + text =~= text);
        lemma_shows_joined(code + text, "\x1b[0m"@, text, Seq::empty());
        assert(text + Seq::empty() =~= text);
        lemma_occurs_in_whole(text, text, code, "\x1b[0m"@);
    }
}

proof fn lemma_sides()
    ensures
        fits_in("║ "@, 2),
        fits_in(" ║"@, 2),
        fits_in("  "@, 2),
        "║ "@.len() == 2,
        " ║"@.len() == 2,
        "  "@.len() == 2,
{
    reveal_strlit("║ ");
    reveal_strlit(" ║");
    reveal_strlit("  ");
    reveal_with_fuel(made_of_line, 3);
}

/// Whether a line of the banner has the full width and shows another.
pub open spec fn full_line(text: Seq<char>, shown: Seq<char>) -> bool {
    shows(text, shown) && columns(text) == WIDTH
}

/// A text between the side borders has the full width.
proof fn lemma_line(inner: Seq<char>, shown: Seq<char>)
    requires
        shows(inner, shown),
        shown.len() <= INNER,
    ensures
        full_line(line(inner), line(shown)),
{
    lemma_sides();
    lemma_shows("║ "@);
    lemma_shows(" ║"@);
    lemma_shows(shown);
    lemma_gap(INNER as nat, shown.len());
    let fill = gap(INNER as nat, shown.len());
    lemma_shows(fill);
    lemma_shows_joined("║ "@, inner, "║ "@, shown);
    lemma_shows_joined("║ "@ + inner, fill, "║ "@ + shown, fill);
    lemma_shows_joined("║ "@ + inner + fill, " ║"@, "║ "@ + shown + fill, " ║"@);
}

proof fn lemma_border(left: Seq<char>, stroke: Seq<char>, right: Seq<char>)
    requires
        fits_in(left, 1),
        fits_in(stroke, 1),
        fits_in(right, 1),
        left.len() == 1,
        stroke.len() == 1,
        right.len() == 1,
    ensures
        full_line(border(left, stroke, right), border(left, stroke, right)),
{
    lemma_repeated(stroke, (WIDTH - 2) as nat);
    lemma_joined_printable(left, repeated(stroke, (WIDTH - 2) as nat));
    lemma_joined_printable(left + repeated(stroke, (WIDTH - 2) as nat), right);
    lemma_shows(border(left, stroke, right));
}

/// A row of a short label and a value that fits fills the space between the borders.
proof fn lemma_row(color: bool, label: Seq<char>, value: Seq<char>)
    requires
        fits_in(label, 12),
        fits_in(value, 58),
    ensures
        shows(row_text(color, label, value), row_text(false, label, value)),
        row_text(false, label, value).len() == INNER,
        occurs(value, row_text(color, label, value)),
{
    let filled = label + gap(12, label.len());
    lemma_sides();
    lemma_codes();
    lemma_gap(12, label.len());
    lemma_joined_printable(label, gap(12, label.len()));
    lemma_painted(color, "\x1b[2;36m"@, filled);
    lemma_painted(color, "\x1b[1m"@, value);
    lemma_painted(false, "\x1b[2;36m"@, filled);
    lemma_painted(false, "\x1b[1m"@, value);
    lemma_shows("  "@);
    let left = "  "@ + painted(color, "\x1b[2;36m"@, filled);
    let right = painted(color, "\x1b[1m"@, value);
    lemma_shows_joined("  "@, painted(color, "\x1b[2;36m"@, filled), "  "@, filled);
    lemma_shows_joined("  "@, painted(false, "\x1b[2;36m"@, filled), "  "@, filled);
    let taken = columns(left) + columns(right);
    lemma_gap(INNER as nat, taken);
    let fill = gap(INNER as nat, taken);
    lemma_shows(fill);
    lemma_shows_joined(left, fill, "  "@ + filled, fill);
    lemma_shows_joined(left + fill, right, "  "@ + filled + fill, value);
    lemma_occurs_in_whole(value, right, left + fill, Seq::empty());
    assert(left + fill + right + Seq::empty() =~= left + fill + right);
}

/// A whole line of the banner from a label and a value that fit.
proof fn lemma_row_line(color: bool, label: Seq<char>, value: Seq<char>)
    requires
        fits_in(label, 12),
        fits_in(value, 58),
    ensures
        full_line(row_line(color, label, value), row_line(false, label, value)),
        occurs(value, row_line(color, label, value)),
{
    reveal(row_line);
    lemma_row(color, label, value);
    let inner = row_text(color, label, value);
    lemma_line(inner, row_text(false, label, value));
    let fill = gap(INNER as nat, columns(inner));
    lemma_occurs_in_whole(value, inner, "║ "@, fill + " ║"@);
    assert("║ "@ + inner + (fill + " ║"@) =~= line(inner));
}

proof fn lemma_strokes()
    ensures
        fits_in("╔"@, 1) && "╔"@.len() == 1,
        fits_in("═"@, 1) && "═"@.len() == 1,
        fits_in("╗"@, 1) && "╗"@.len() == 1,
        fits_in("╠"@, 1) && "╠"@.len() == 1,
        fits_in("╣"@, 1) && "╣"@.len() == 1,
        fits_in("╟"@, 1) && "╟"@.len() == 1,
        fits_in("─"@, 1) && "─"@.len() == 1,
        fits_in("╢"@, 1) && "╢"@.len() == 1,
        fits_in("╚"@, 1) && "╚"@.len() == 1,
        fits_in("╝"@, 1) && "╝"@.len() == 1,
{
    reveal_strlit("╔");
    reveal_strlit("═");
    reveal_strlit("╗");
    reveal_strlit("╠");
    reveal_strlit("╣");
    reveal_strlit("╟");
    reveal_strlit("─");
    reveal_strlit("╢");
    reveal_strlit("╚");
    reveal_strlit("╝");
    reveal_with_fuel(made_of_line, 2);
}

proof fn lemma_labels()
    ensures
        fits_in("listen"@, 12),
        fits_in("admit"@, 12),
        fits_in("kernel xdp"@, 12),
        fits_in("io_uring"@, 12),
        fits_in("rebalancer"@, 12),
        fits_in("prefill pool"@, 12),
        fits_in("decode pool"@, 12),
        fits_in("kv pool"@, 12),
{
    reveal_strlit("listen");
    reveal_strlit("admit");
    reveal_strlit("kernel xdp");
    reveal_strlit("io_uring");
    reveal_strlit("rebalancer");
    reveal_strlit("prefill pool");
    reveal_strlit("decode pool");
    reveal_strlit("kv pool");
    reveal_with_fuel(made_of_line, 13);
}

proof fn lemma_mode_text(mode: AdmitMode, kernel: bool)
    ensures
        fits_in(mode_text(mode, kernel), 27),
{
    reveal_with_fuel(made_of_line, 28);
    match mode {
        AdmitMode::Userspace => {
            reveal_strlit("userspace token bucket");
        },
        AdmitMode::KernelXdp => {
            reveal_strlit("kernel XDP shed");
        },
        AdmitMode::Hybrid => {
            reveal_strlit("hybrid · kernel XDP live");
            reveal_strlit("hybrid · userspace fallback");
        },
    }
}

proof fn lemma_admit_text(s: RouterState)
    ensures
        fits_in(admit_text(s), 58),
{
    lemma_mode_text(s.admit_mode, s.kernel_attached);
    lemma_u64_text(s.bucket.capacity as nat);
    let mode = mode_text(s.admit_mode, s.kernel_attached);
    assert(fits_in(" · burst "@, 9)) by {
        reveal_strlit(" · burst ");
        reveal_with_fuel(made_of_line, 10);
    }
    lemma_fits_joined(mode, " · burst "@, 27, 9);
    lemma_fits_joined(mode + " · burst "@, number_text(s.bucket.capacity as nat), 36, 20);
}

proof fn lemma_xdp_text(kernel: bool, iface: Option<Seq<char>>)
    requires
        iface matches Some(i) ==> fits_in(i, 47),
    ensures
        fits_in(xdp_text(kernel, iface), 58),
{
    assert(fits_in("off"@, 58) && fits_in("attached"@, 58) && fits_in("attached · "@, 11)) by {
        reveal_strlit("off");
        reveal_strlit("attached");
        reveal_strlit("attached · ");
        reveal_with_fuel(made_of_line, 12);
    }
    if let Some(i) = iface {
        lemma_fits_joined("attached · "@, i, 11, 47);
    }
}

proof fn lemma_share_text(pi: Real)
    requires
        is_share(pi),
    ensures
        fits_in(share_text(pi), 25),
{
    if pi.is_nan() {
        reveal_strlit("NaN");
        reveal_with_fuel(made_of_line, 4);
    } else {
        assert(pi.finite()) by {
            lemma_value_order(pi, one());
            lemma_value_order(one(), pi);
            lemma_value_order(zero(), pi);
            lemma_value_order(pi, zero());
        }
        lemma_share_parts(pi);
        let parts = parts_of(pi, 1000);
        let sign = if pi.negative() {
            "-"@
        } else {
            ""@
        };
        assert(fits_in(sign, 1) && fits_in("."@, 1)) by {
            reveal_strlit("-");
            reveal_strlit("");
            reveal_strlit(".");
            reveal_with_fuel(made_of_line, 2);
        }
        lemma_u64_text(parts / 1000);
        lemma_digit(parts / 100 % 10);
        lemma_digit(parts / 10 % 10);
        lemma_digit(parts % 10);
        let whole = sign + number_text(parts / 1000);
        lemma_fits_joined(sign, number_text(parts / 1000), 1, 20);
        lemma_fits_joined(whole, "."@, 21, 1);
        lemma_fits_joined(whole + "."@, digit(parts / 100 % 10), 22, 1);
        lemma_fits_joined(whole + "."@ + digit(parts / 100 % 10), digit(parts / 10 % 10), 23, 1);
        lemma_fits_joined(
            whole + "."@ + digit(parts / 100 % 10) + digit(parts / 10 % 10),
            digit(parts % 10),
            24,
            1,
        );
    }
}

proof fn lemma_rebalancer_text(actuation: bool, pi: Real)
    requires
        is_share(pi),
    ensures
        fits_in(rebalancer_text(actuation, pi), 58),
{
    assert(fits_in("actuated · π="@, 13) && fits_in("shadow"@, 13)) by {
        reveal_strlit("actuated · π=");
        reveal_strlit("shadow");
        reveal_with_fuel(made_of_line, 14);
    }
    lemma_share_text(pi);
    lemma_fits_joined("actuated · π="@, share_text(pi), 13, 25);
}

proof fn lemma_backends_text(n: nat)
    requires
        n <= u64::MAX,
    ensures
        fits_in(backends_text(n), 58),
{
    lemma_u64_text(n);
    let end = if n == 1 {
        ""@
    } else {
        "s"@
    };
    assert(fits_in(" backend"@, 8) && fits_in(end, 1)) by {
        reveal_strlit(" backend");
        reveal_strlit("s");
        reveal_strlit("");
        reveal_with_fuel(made_of_line, 9);
    }
    lemma_fits_joined(number_text(n), " backend"@, 20, 8);
    lemma_fits_joined(number_text(n) + " backend"@, end, 28, 1);
}

proof fn lemma_bytes_text(bytes: u64)
    ensures
        fits_in(bytes_text(bytes), 26),
{
    assert(fits_in(" GiB"@, 4) && fits_in(" MiB"@, 4) && fits_in(" KiB"@, 4) && fits_in(" B"@, 4)
        && fits_in("."@, 1)) by {
        reveal_strlit(" GiB");
        reveal_strlit(" MiB");
        reveal_strlit(" KiB");
        reveal_strlit(" B");
        reveal_strlit(".");
        reveal_with_fuel(made_of_line, 5);
    }
    lemma_u64_text((bytes / GIB) as nat);
    lemma_u64_text((bytes / 1024) as nat);
    lemma_u64_text(bytes as nat);
    lemma_fits_joined(number_text((bytes / GIB) as nat), " GiB"@, 20, 4);
    lemma_fits_joined(number_text((bytes / 1024) as nat), " KiB"@, 20, 4);
    lemma_fits_joined(number_text(bytes as nat), " B"@, 20, 4);
    mib_fits(bytes);
    let parts = parts_of(quotient(of_nat(bytes as nat), of_nat(MIB as nat)), 10);
    lemma_u64_text(parts / 10);
    lemma_digit(parts % 10);
    lemma_fits_joined(number_text(parts / 10), "."@, 20, 1);
    lemma_fits_joined(number_text(parts / 10) + "."@, digit(parts % 10), 21, 1);
    lemma_fits_joined(tenths_text(parts), " MiB"@, 22, 4);
}

proof fn lemma_titles()
    ensures
        fits_in("DEMIURGE ROUTER"@, 15) && "DEMIURGE ROUTER"@.len() == 15,
        fits_in("phase-aware forwarder"@, 21) && "phase-aware forwarder"@.len() == 21,
{
    reveal_strlit("DEMIURGE ROUTER");
    reveal_strlit("phase-aware forwarder");
    reveal_with_fuel(made_of_line, 22);
}

proof fn lemma_tagline()
    ensures
        fits_in(tagline_text(), 72),
{
    let a = "KV-native routing"@;
    let b = " · disaggregated prefill/decode"@;
    let c = " · RCU dataplane"@;
    assert(fits_in(a, 17) && fits_in(b, 31) && fits_in(c, 16)) by {
        reveal_strlit("KV-native routing");
        reveal_strlit(" · disaggregated prefill/decode");
        reveal_strlit(" · RCU dataplane");
        reveal_with_fuel(made_of_line, 32);
    }
    lemma_fits_joined(a, b, 17, 31);
    lemma_fits_joined(a + b, c, 48, 16);
}

proof fn lemma_title_line(color: bool)
    ensures
        full_line("║ "@ + title_text(color) + " ║"@, "║ "@ + title_text(false) + " ║"@),
        occurs("DEMIURGE ROUTER"@, "║ "@ + title_text(color) + " ║"@),
{
    lemma_sides();
    lemma_codes();
    lemma_titles();
    let name = "DEMIURGE ROUTER"@;
    let sub = "phase-aware forwarder"@;
    lemma_painted(color, "\x1b[1;97m"@, name);
    lemma_painted(color, "\x1b[2m"@, sub);
    lemma_painted(false, "\x1b[1;97m"@, name);
    lemma_painted(false, "\x1b[2m"@, sub);
    let left = painted(color, "\x1b[1;97m"@, name);
    let right = painted(color, "\x1b[2m"@, sub);
    lemma_gap(INNER as nat, 36);
    let fill = gap(INNER as nat, 36);
    lemma_shows(fill);
    lemma_shows("║ "@);
    lemma_shows(" ║"@);
    lemma_shows_joined(left, fill, name, fill);
    lemma_shows_joined(left + fill, right, name + fill, sub);
    lemma_shows_joined("║ "@, title_text(color), "║ "@, title_text(false));
    lemma_shows_joined(
        "║ "@ + title_text(color),
        " ║"@,
        "║ "@ + title_text(false),
        " ║"@,
    );
    lemma_occurs_in_whole(name, left, "║ "@, fill + right + " ║"@);
    assert("║ "@ + left + (fill + right + " ║"@) =~= "║ "@ + title_text(color) + " ║"@);
}

proof fn lemma_ready_words()
    ensures
        fits_in("● READY"@, 7),
        fits_in("accepting connections"@, 21),
        fits_in("Ctrl+C to stop"@, 14),
        fits_in("  v"@, 3),
        fits_in("● "@, 2),
        fits_in("READY"@, 5),
        "● READY"@ == "● "@ + "READY"@,
{
    reveal_strlit("● READY");
    reveal_strlit("● ");
    reveal_strlit("READY");
    reveal_strlit("accepting connections");
    reveal_strlit("Ctrl+C to stop");
    reveal_strlit("  v");
    reveal_with_fuel(made_of_line, 22);
    assert("● READY"@ =~= "● "@ + "READY"@);
}

proof fn lemma_ready_text(color: bool, version: Seq<char>)
    requires
        fits_in(version, 23),
    ensures
        shows(ready_text(color, version), ready_text(false, version)),
        ready_text(false, version).len() <= INNER,
{
    let ready = "● READY"@;
    let accepting = "accepting connections"@;
    let stop = "Ctrl+C to stop"@;
    lemma_sides();
    lemma_codes();
    lemma_ready_words();
    lemma_painted(color, "\x1b[1;32m"@, ready);
    lemma_painted(color, "\x1b[2m"@, accepting);
    lemma_painted(color, "\x1b[2m"@, stop);
    lemma_shows("  "@);
    lemma_shows("  v"@);
    lemma_shows(version);
    let p1 = painted(color, "\x1b[1;32m"@, ready);
    let p2 = painted(color, "\x1b[2m"@, accepting);
    let p3 = painted(color, "\x1b[2m"@, stop);
    lemma_shows_joined(p1, "  "@, ready, "  "@);
    lemma_shows_joined(p1 + "  "@, p2, ready + "  "@, accepting);
    lemma_shows_joined(p1 + "  "@ + p2, "  v"@, ready + "  "@ + accepting, "  v"@);
    lemma_shows_joined(
        p1 + "  "@ + p2 + "  v"@,
        version,
        ready + "  "@ + accepting + "  v"@,
        version,
    );
    let front = p1 + "  "@ + p2 + "  v"@ + version;
    let shown = ready + "  "@ + accepting + "  v"@ + version;
    lemma_shows_joined(front, "  "@, shown, "  "@);
    lemma_shows_joined(front + "  "@, p3, shown + "  "@, stop);
}

proof fn lemma_occurs_in_line(needle: Seq<char>, inner: Seq<char>)
    requires
        occurs(needle, inner),
    ensures
        occurs(needle, line(inner)),
{
    let fill = gap(INNER as nat, columns(inner));
    lemma_occurs_in_whole(needle, inner, "║ "@, fill + " ║"@);
    assert("║ "@ + inner + (fill + " ║"@) =~= line(inner));
}

proof fn lemma_ready_occurs(color: bool, version: Seq<char>)
    requires
        fits_in(version, 23),
    ensures
        occurs(version, ready_text(color, version)),
        occurs("READY"@, ready_text(color, version)),
{
    let ready = "● READY"@;
    lemma_codes();
    lemma_ready_words();
    lemma_painted(color, "\x1b[1;32m"@, ready);
    let p1 = painted(color, "\x1b[1;32m"@, ready);
    let p2 = painted(color, "\x1b[2m"@, "accepting connections"@);
    let p3 = painted(color, "\x1b[2m"@, "Ctrl+C to stop"@);
    let before = p1 + "  "@ + p2 + "  v"@;
    lemma_occurs(version);
    lemma_occurs_right(version, before, version);
    lemma_occurs_left(version, before + version, "  "@);
    lemma_occurs_left(version, before + version + "  "@, p3);
    lemma_occurs("READY"@);
    lemma_occurs_right("READY"@, "● "@, "READY"@);
    let (a, b) = choose|a: Seq<char>, b: Seq<char>| #[trigger] (a + ready + b) == p1;
    lemma_occurs_in_whole("READY"@, ready, a, b);
    lemma_occurs_left("READY"@, p1, "  "@);
    lemma_occurs_left("READY"@, p1 + "  "@, p2);
    lemma_occurs_left("READY"@, p1 + "  "@ + p2, "  v"@);
    lemma_occurs_left("READY"@, before, version);
    lemma_occurs_left("READY"@, before + version, "  "@);
    lemma_occurs_left("READY"@, before + version + "  "@, p3);
}

proof fn lemma_occurs_left(needle: Seq<char>, a: Seq<char>, b: Seq<char>)
    requires
        occurs(needle, a),
    ensures
        occurs(needle, a + b),
{
    lemma_occurs_in_whole(needle, a, Seq::empty(), b);
    assert(Seq::empty() + a + b =~= a + b);
}

proof fn lemma_occurs_right(needle: Seq<char>, a: Seq<char>, b: Seq<char>)
    requires
        occurs(needle, b),
    ensures
        occurs(needle, a + b),
{
    lemma_occurs_in_whole(needle, b, a, Seq::empty());
    assert(a + b + Seq::empty() =~= a + b);
}

proof fn lemma_ready_line(color: bool, version: Seq<char>)
    requires
        fits_in(version, 23),
    ensures
        full_line(line(ready_text(color, version)), line(ready_text(false, version))),
        occurs(version, line(ready_text(color, version))),
        occurs("READY"@, line(ready_text(color, version))),
{
    lemma_ready_text(color, version);
    lemma_line(ready_text(color, version), ready_text(false, version));
    lemma_ready_occurs(color, version);
    lemma_occurs_in_line(version, ready_text(color, version));
    lemma_occurs_in_line("READY"@, ready_text(color, version));
}

/// Whether a banner has room for what it is to show: an address and a path of at most 58
/// characters, an interface of at most 47 and a version of at most 23, all printable.
pub open spec fn has_room(
    s: RouterState,
    listen: Seq<char>,
    xdp_iface: Option<Seq<char>>,
    io_uring: Seq<char>,
    version: Seq<char>,
) -> bool {
    &&& fits_in(listen, 58)
    &&& (xdp_iface matches Some(i) ==> fits_in(i, 47))
    &&& fits_in(io_uring, 58)
    &&& fits_in(version, 23)
    &&& is_share(s.current.pi)
    &&& s.prefill.len() <= u64::MAX
    &&& s.decode.len() <= u64::MAX
}

/// Every line of one list has the full width and shows the line of the other.
pub open spec fn full_lines(lines: Seq<Seq<char>>, shown: Seq<Seq<char>>) -> bool {
    &&& lines.len() == shown.len()
    &&& forall|i: int| 0 <= i < lines.len() ==> full_line(#[trigger] lines[i], shown[i])
}

proof fn lemma_full_joined(
    a: Seq<Seq<char>>,
    b: Seq<Seq<char>>,
    x: Seq<Seq<char>>,
    y: Seq<Seq<char>>,
)
    requires
        full_lines(a, x),
        full_lines(b, y),
    ensures
        full_lines(a + b, x + y),
{
    assert forall|i: int| 0 <= i < (a + b).len() implies full_line(
        #[trigger] (a + b)[i],
        (x + y)[i],
    ) by {
        if i < a.len() {
            assert(full_line(a[i], x[i]));
        } else {
            assert(full_line(b[i - a.len()], y[i - a.len()]));
        }
    }
}

proof fn lemma_title_lines(color: bool)
    ensures
        full_lines(title_lines(color), title_lines(false)),
{
    lemma_strokes();
    lemma_border("╔"@, "═"@, "╗"@);
    lemma_border("╠"@, "═"@, "╣"@);
    assert(fits_in(""@, 0)) by {
        reveal_strlit("");
        reveal_with_fuel(made_of_line, 1);
    }
    lemma_shows(""@);
    lemma_line(""@, ""@);
    lemma_title_line(color);
    lemma_codes();
    lemma_tagline();
    lemma_painted(color, "\x1b[2m"@, tagline_text());
    lemma_line(painted(color, "\x1b[2m"@, tagline_text()), tagline_text());
}

proof fn lemma_status_lines(
    s: RouterState,
    listen: Seq<char>,
    xdp_iface: Option<Seq<char>>,
    io_uring: Seq<char>,
    version: Seq<char>,
    color: bool,
)
    requires
        has_room(s, listen, xdp_iface, io_uring, version),
    ensures
        full_lines(
            status_lines(s, listen, xdp_iface, io_uring, color),
            status_lines(s, listen, xdp_iface, io_uring, false),
        ),
{
    lemma_labels();
    let nothing = Seq::<Seq<char>>::empty();
    let xdp = xdp_text(s.kernel_attached, xdp_iface);
    let shares = rebalancer_text(s.actuation, s.current.pi);
    lemma_admit_text(s);
    lemma_xdp_text(s.kernel_attached, xdp_iface);
    lemma_rebalancer_text(s.actuation, s.current.pi);
    lemma_full_row(nothing, nothing, color, "listen"@, listen);
    let (a, b) = (nothing.push(row_line(color, "listen"@, listen)), nothing.push(
        row_line(false, "listen"@, listen),
    ));
    lemma_full_row(a, b, color, "admit"@, admit_text(s));
    let (a, b) = (a.push(row_line(color, "admit"@, admit_text(s))), b.push(
        row_line(false, "admit"@, admit_text(s)),
    ));
    lemma_full_row(a, b, color, "kernel xdp"@, xdp);
    let (a, b) = (a.push(row_line(color, "kernel xdp"@, xdp)), b.push(
        row_line(false, "kernel xdp"@, xdp),
    ));
    lemma_full_row(a, b, color, "io_uring"@, io_uring);
    let (a, b) = (a.push(row_line(color, "io_uring"@, io_uring)), b.push(
        row_line(false, "io_uring"@, io_uring),
    ));
    lemma_full_row(a, b, color, "rebalancer"@, shares);
    assert(a.push(row_line(color, "rebalancer"@, shares)) =~= status_lines(
        s,
        listen,
        xdp_iface,
        io_uring,
        color,
    ));
    assert(b.push(row_line(false, "rebalancer"@, shares)) =~= status_lines(
        s,
        listen,
        xdp_iface,
        io_uring,
        false,
    ));
}

proof fn lemma_full_row(
    lines: Seq<Seq<char>>,
    shown: Seq<Seq<char>>,
    color: bool,
    label: Seq<char>,
    value: Seq<char>,
)
    requires
        full_lines(lines, shown),
        fits_in(label, 12),
        fits_in(value, 58),
    ensures
        full_lines(
            lines.push(row_line(color, label, value)),
            shown.push(row_line(false, label, value)),
        ),
{
    lemma_row_line(color, label, value);
    let more = lines.push(row_line(color, label, value));
    let also = shown.push(row_line(false, label, value));
    assert forall|i: int| 0 <= i < more.len() implies full_line(#[trigger] more[i], also[i]) by {
        if i < lines.len() {
            assert(full_line(lines[i], shown[i]));
        }
    }
}

proof fn lemma_foot_lines(s: RouterState, version: Seq<char>, color: bool)
    requires
        fits_in(version, 23),
        s.prefill.len() <= u64::MAX,
        s.decode.len() <= u64::MAX,
    ensures
        full_lines(foot_lines(s, version, color), foot_lines(s, version, false)),
{
    lemma_front_lines(s, color);
    lemma_kv_lines(s, color);
    lemma_back_lines(version, color);
    lemma_full_joined(
        front_lines(s, color),
        kv_lines(s, color),
        front_lines(s, false),
        kv_lines(s, false),
    );
    lemma_full_joined(
        front_lines(s, color) + kv_lines(s, color),
        back_lines(version, color),
        front_lines(s, false) + kv_lines(s, false),
        back_lines(version, false),
    );
}

proof fn lemma_front_lines(s: RouterState, color: bool)
    requires
        s.prefill.len() <= u64::MAX,
        s.decode.len() <= u64::MAX,
    ensures
        full_lines(front_lines(s, color), front_lines(s, false)),
{
    let lines = front_lines(s, color);
    let shown = front_lines(s, false);
    lemma_labels();
    assert(full_line(lines[0], shown[0])) by {
        lemma_strokes();
        lemma_border("╟"@, "─"@, "╢"@);
    }
    assert(full_line(lines[1], shown[1])) by {
        lemma_backends_text(s.prefill.len());
        lemma_row_line(color, "prefill pool"@, backends_text(s.prefill.len()));
    }
    assert(full_line(lines[2], shown[2])) by {
        lemma_backends_text(s.decode.len());
        lemma_row_line(color, "decode pool"@, backends_text(s.decode.len()));
    }
}

proof fn lemma_kv_lines(s: RouterState, color: bool)
    ensures
        full_lines(kv_lines(s, color), kv_lines(s, false)),
{
    if let Some(l) = s.ledger {
        lemma_labels();
        lemma_bytes_text(l.capacity);
        assert(fits_in(" decode cap"@, 11)) by {
            reveal_strlit(" decode cap");
            reveal_with_fuel(made_of_line, 12);
        }
        lemma_fits_joined(bytes_text(l.capacity), " decode cap"@, 26, 11);
        lemma_row_line(color, "kv pool"@, bytes_text(l.capacity) + " decode cap"@);
    }
}

proof fn lemma_back_lines(version: Seq<char>, color: bool)
    requires
        fits_in(version, 23),
    ensures
        full_lines(back_lines(version, color), back_lines(version, false)),
{
    let lines = back_lines(version, color);
    let shown = back_lines(version, false);
    lemma_strokes();
    assert(full_line(lines[0], shown[0])) by {
        lemma_border("╠"@, "═"@, "╣"@);
    }
    assert(full_line(lines[1], shown[1])) by {
        lemma_ready_line(color, version);
    }
    assert(full_line(lines[2], shown[2])) by {
        lemma_border("╚"@, "═"@, "╝"@);
    }
}

proof fn lemma_banner_lines(
    s: RouterState,
    listen: Seq<char>,
    xdp_iface: Option<Seq<char>>,
    io_uring: Seq<char>,
    version: Seq<char>,
    color: bool,
)
    requires
        has_room(s, listen, xdp_iface, io_uring, version),
    ensures
        full_lines(
            banner_lines(s, listen, xdp_iface, io_uring, version, color),
            banner_lines(s, listen, xdp_iface, io_uring, version, false),
        ),
{
    lemma_title_lines(color);
    lemma_status_lines(s, listen, xdp_iface, io_uring, version, color);
    lemma_foot_lines(s, version, color);
    lemma_full_joined(
        title_lines(color),
        status_lines(s, listen, xdp_iface, io_uring, color),
        title_lines(false),
        status_lines(s, listen, xdp_iface, io_uring, false),
    );
    lemma_full_joined(
        title_lines(color) + status_lines(s, listen, xdp_iface, io_uring, color),
        foot_lines(s, version, color),
        title_lines(false) + status_lines(s, listen, xdp_iface, io_uring, false),
        foot_lines(s, version, false),
    );
}

/// Every line of the banner is 76 columns wide: cut at the ends of its lines, the text gives the
/// lines of the banner, each of the full width, and nothing behind the last.
pub proof fn banner_is_rectangular(
    s: RouterState,
    listen: Seq<char>,
    xdp_iface: Option<Seq<char>>,
    io_uring: Seq<char>,
    version: Seq<char>,
    color: bool,
)
    requires
        has_room(s, listen, xdp_iface, io_uring, version),
    ensures
        ({
            let lines = banner_lines(s, listen, xdp_iface, io_uring, version, color);
            &&& split(text_of(lines), '\n') == lines.push(Seq::empty())
            &&& forall|i: int| 0 <= i < lines.len() ==> columns(#[trigger] lines[i]) == WIDTH
        }),
{
    let lines = banner_lines(s, listen, xdp_iface, io_uring, version, color);
    lemma_banner_lines(s, listen, xdp_iface, io_uring, version, color);
    assert forall|i: int| 0 <= i < lines.len() implies one_line(#[trigger] lines[i]) && columns(
        lines[i],
    ) == WIDTH by {}
    lemma_lines_of_text(lines);
}

/// Without its escape sequences the coloured banner is the plain one.
pub proof fn colours_change_nothing_else(
    s: RouterState,
    listen: Seq<char>,
    xdp_iface: Option<Seq<char>>,
    io_uring: Seq<char>,
    version: Seq<char>,
    color: bool,
)
    requires
        has_room(s, listen, xdp_iface, io_uring, version),
    ensures
        visible(text_of(banner_lines(s, listen, xdp_iface, io_uring, version, color))) == text_of(
            banner_lines(s, listen, xdp_iface, io_uring, version, false),
        ),
{
    lemma_banner_lines(s, listen, xdp_iface, io_uring, version, color);
    lemma_visible_lines(
        banner_lines(s, listen, xdp_iface, io_uring, version, color),
        banner_lines(s, listen, xdp_iface, io_uring, version, false),
    );
}

/// The banner names the program, the address, the version and its readiness.
pub proof fn banner_shows_the_essentials(
    s: RouterState,
    listen: Seq<char>,
    xdp_iface: Option<Seq<char>>,
    io_uring: Seq<char>,
    version: Seq<char>,
    color: bool,
)
    requires
        has_room(s, listen, xdp_iface, io_uring, version),
    ensures
        ({
            let text = text_of(banner_lines(s, listen, xdp_iface, io_uring, version, color));
            &&& occurs("DEMIURGE ROUTER"@, text)
            &&& occurs(listen, text)
            &&& occurs(version, text)
            &&& occurs("READY"@, text)
        }),
{
    let lines = banner_lines(s, listen, xdp_iface, io_uring, version, color);
    lemma_title_line(color);
    assert(lines[2] == "║ "@ + title_text(color) + " ║"@);
    lemma_occurs_in_text("DEMIURGE ROUTER"@, lines, 2);
    lemma_labels();
    lemma_row_line(color, "listen"@, listen);
    assert(lines[6] == row_line(color, "listen"@, listen));
    lemma_occurs_in_text(listen, lines, 6);
    lemma_ready_line(color, version);
    let last = lines.len() - 2;
    assert(lines[last] == line(ready_text(color, version)));
    lemma_occurs_in_text(version, lines, last);
    lemma_occurs_in_text("READY"@, lines, last);
}

/// A row of the plain banner starts with its label, behind the border.
proof fn lemma_row_start(label: Seq<char>, value: Seq<char>)
    requires
        label.len() >= 2,
    ensures
        row_line(false, label, value).len() > 5,
        row_line(false, label, value)[0] == '║',
        row_line(false, label, value)[2] == ' ',
        row_line(false, label, value)[4] == label[0],
        row_line(false, label, value)[5] == label[1],
{
    reveal(row_line);
    reveal_strlit("║ ");
    reveal_strlit("  ");
}

/// A row about KV accounting is there exactly when there is a ledger.
pub proof fn kv_row_shows_the_ledger(
    s: RouterState,
    listen: Seq<char>,
    xdp_iface: Option<Seq<char>>,
    io_uring: Seq<char>,
    version: Seq<char>,
)
    ensures
        s.ledger is Some <==> exists|i: int, value: Seq<char>|
            0 <= i < banner_lines(s, listen, xdp_iface, io_uring, version, false).len()
                && #[trigger] banner_lines(s, listen, xdp_iface, io_uring, version, false)[i]
                == #[trigger] row_line(false, "kv pool"@, value),
{
    let lines = banner_lines(s, listen, xdp_iface, io_uring, version, false);
    reveal_strlit("kv pool");
    if s.ledger is Some {
        let value = bytes_text(s.ledger->0.capacity) + " decode cap"@;
        assert(lines[14] == row_line(false, "kv pool"@, value));
    } else {
        assert(lines.len() == 17);
        assert forall|i: int, value: Seq<char>| 0 <= i < lines.len() implies #[trigger] lines[i]
            != #[trigger] row_line(false, "kv pool"@, value) by {
            lemma_row_start("kv pool"@, value);
            reveal_strlit("║ ");
            reveal_strlit("╔");
            reveal_strlit("╠");
            reveal_strlit("╟");
            reveal_strlit("╚");
            if i == 1 || i == 4 {
                lemma_gap(INNER as nat, columns(""@));
                reveal_strlit("");
                reveal_with_fuel(visible, 1);
                reveal_strlit(" ");
                lemma_spaces(INNER as nat);
                assert(lines[i][4] == ' ');
            } else if i == 2 {
                reveal_strlit("DEMIURGE ROUTER");
                assert(lines[i][2] == 'D');
            } else if i == 3 {
                reveal_strlit("KV-native routing");
                assert(lines[i][2] == 'K');
            } else if i == 6 {
                reveal_strlit("listen");
                lemma_row_start("listen"@, listen);
            } else if i == 7 {
                reveal_strlit("admit");
                lemma_row_start("admit"@, admit_text(s));
            } else if i == 8 {
                reveal_strlit("kernel xdp");
                lemma_row_start("kernel xdp"@, xdp_text(s.kernel_attached, xdp_iface));
            } else if i == 9 {
                reveal_strlit("io_uring");
                lemma_row_start("io_uring"@, io_uring);
            } else if i == 10 {
                reveal_strlit("rebalancer");
                lemma_row_start("rebalancer"@, rebalancer_text(s.actuation, s.current.pi));
            } else if i == 12 {
                reveal_strlit("prefill pool");
                lemma_row_start("prefill pool"@, backends_text(s.prefill.len()));
            } else if i == 13 {
                reveal_strlit("decode pool");
                lemma_row_start("decode pool"@, backends_text(s.decode.len()));
            } else if i == 15 {
                reveal_strlit("● READY");
                assert(lines[i][2] == '●');
            } else {
                assert(lines[i][0] != '║');
            }
        }
    }
}

proof fn lemma_spaces(n: nat)
    ensures
        repeated(" "@, n).len() == n,
        forall|i: int| 0 <= i < n ==> #[trigger] repeated(" "@, n)[i] == ' ',
    decreases n,
{
    reveal_strlit(" ");
    if n > 0 {
        lemma_spaces((n - 1) as nat);
        let rest = repeated(" "@, (n - 1) as nat);
        assert forall|i: int| 0 <= i < n implies #[trigger] repeated(" "@, n)[i] == ' ' by {
            if i < n - 1 {
                assert(repeated(" "@, n)[i] == rest[i]);
            }
        }
    }
}

} // verus!
