//! The startup banner.

use vstd::prelude::*;
use vstd::arithmetic::power2::{lemma2_to64, lemma_pow2_strictly_increases, pow2};
use vstd::string::*;
use crate::admission::AdmitMode;
use crate::binary64::{
    lemma_count_below, lemma_one_value, lemma_quotient_below, lemma_units_increase,
    lemma_value_order, of_nat, one, parts_of, quotient, units, zero, Real,
};
use crate::config::{env_bool, flag};
use crate::ledger::label_view;
use crate::rcu::is_share;
use crate::router::{Phase, Router, RouterState};
use crate::terminal::{columns, join_lines, string_views, text_of, visible_len};
use crate::text::{decimal_text, digit, digit_text, joined, number_text, same_text};

verus! {

/// Width of the banner.
pub const WIDTH: usize = 76;

/// Columns between the side borders.
pub const INNER: usize = 72;

/// Bytes in a mebibyte.
pub const MIB: u64 = 1_048_576;

/// Bytes in a gibibyte.
pub const GIB: u64 = 1_073_741_824;

/// A text `n` times.
pub open spec fn repeated(text: Seq<char>, n: nat) -> Seq<char>
    decreases n,
{
    if n == 0 {
        Seq::empty()
    } else {
        repeated(text, (n - 1) as nat) + text
    }
}

/// `n` columns less those taken, as spaces.
pub open spec fn gap(n: nat, taken: nat) -> Seq<char> {
    repeated(" "@, if taken >= n {
        0
    } else {
        (n - taken) as nat
    })
}

/// A text between an escape sequence and the reset, if colour is on.
pub open spec fn painted(color: bool, code: Seq<char>, text: Seq<char>) -> Seq<char> {
    if color {
        code + text + "\x1b[0m"@
    } else {
        text
    }
}

/// A text between the side borders.
pub open spec fn line(inner: Seq<char>) -> Seq<char> {
    "║ "@ + inner + gap(INNER as nat, columns(inner)) + " ║"@
}

/// A border across the banner.
pub open spec fn border(left: Seq<char>, stroke: Seq<char>, right: Seq<char>) -> Seq<char> {
    left + repeated(stroke, (WIDTH - 2) as nat) + right
}

/// A label at the left, filled to twelve columns, and a value at the right.
pub open spec fn row_text(color: bool, label: Seq<char>, value: Seq<char>) -> Seq<char> {
    let left = "  "@ + painted(color, "\x1b[2;36m"@, label + gap(12, label.len()));
    let right = painted(color, "\x1b[1m"@, value);
    left + gap(INNER as nat, columns(left) + columns(right)) + right
}

/// A label and a value on a line of their own.
#[verifier::opaque]
pub open spec fn row_line(color: bool, label: Seq<char>, value: Seq<char>) -> Seq<char> {
    line(row_text(color, label, value))
}

/// What the admission mode is called.
pub open spec fn mode_text(mode: AdmitMode, kernel: bool) -> Seq<char> {
    match mode {
        AdmitMode::Userspace => "userspace token bucket"@,
        AdmitMode::KernelXdp => "kernel XDP shed"@,
        AdmitMode::Hybrid => if kernel {
            "hybrid · kernel XDP live"@
        } else {
            "hybrid · userspace fallback"@
        },
    }
}

/// A number of tenths.
pub open spec fn tenths_text(parts: nat) -> Seq<char> {
    number_text(parts / 10) + "."@ + digit(parts % 10)
}

/// A share with three digits behind the point.
pub open spec fn share_text(pi: Real) -> Seq<char> {
    if pi.is_nan() {
        "NaN"@
    } else {
        let parts = parts_of(pi, 1000);
        (if pi.negative() {
            "-"@
        } else {
            ""@
        }) + number_text(parts / 1000) + "."@ + digit(parts / 100 % 10) + digit(parts / 10 % 10)
            + digit(parts % 10)
    }
}

/// A number of bytes in the unit that suits it.
pub open spec fn bytes_text(bytes: u64) -> Seq<char> {
    if bytes >= GIB && bytes % MIB == 0 {
        number_text((bytes / GIB) as nat) + " GiB"@
    } else if bytes >= MIB {
        tenths_text(parts_of(quotient(of_nat(bytes as nat), of_nat(MIB as nat)), 10)) + " MiB"@
    } else if bytes >= 1024 {
        number_text((bytes / 1024) as nat) + " KiB"@
    } else {
        number_text(bytes as nat) + " B"@
    }
}

/// A number of backends.
pub open spec fn backends_text(n: nat) -> Seq<char> {
    number_text(n) + " backend"@ + (if n == 1 {
        ""@
    } else {
        "s"@
    })
}

/// What is said of the kernel program.
pub open spec fn xdp_text(kernel: bool, iface: Option<Seq<char>>) -> Seq<char> {
    if !kernel {
        "off"@
    } else {
        match iface {
            Some(i) => "attached · "@ + i,
            None => "attached"@,
        }
    }
}

/// What is said of the pool shares.
pub open spec fn rebalancer_text(actuation: bool, pi: Real) -> Seq<char> {
    if actuation {
        "actuated · π="@ + share_text(pi)
    } else {
        "shadow"@
    }
}

/// The title at the left and the subtitle at the right.
pub open spec fn title_text(color: bool) -> Seq<char> {
    let left = painted(color, "\x1b[1;97m"@, "DEMIURGE ROUTER"@);
    let right = painted(color, "\x1b[2m"@, "phase-aware forwarder"@);
    left + gap(INNER as nat, columns(left) + columns(right)) + right
}

/// What the last line says.
pub open spec fn ready_text(color: bool, version: Seq<char>) -> Seq<char> {
    painted(color, "\x1b[1;32m"@, "● READY"@) + "  "@ + painted(
        color,
        "\x1b[2m"@,
        "accepting connections"@,
    ) + "  v"@ + version + "  "@ + painted(color, "\x1b[2m"@, "Ctrl+C to stop"@)
}

/// What is said of admission.
pub open spec fn admit_text(s: RouterState) -> Seq<char> {
    mode_text(s.admit_mode, s.kernel_attached) + " · burst "@ + number_text(
        s.bucket.capacity as nat,
    )
}

/// What the program is, in a few words.
pub open spec fn tagline_text() -> Seq<char> {
    "KV-native routing"@ + " · disaggregated prefill/decode"@ + " · RCU dataplane"@
}

/// The lines of the title.
pub open spec fn title_lines(color: bool) -> Seq<Seq<char>> {
    seq![
        border("╔"@, "═"@, "╗"@),
        line(""@),
        "║ "@ + title_text(color) + " ║"@,
        line(painted(color, "\x1b[2m"@, tagline_text())),
        line(""@),
        border("╠"@, "═"@, "╣"@),
    ]
}

/// The lines about what the router listens on and how it admits.
pub open spec fn status_lines(
    s: RouterState,
    listen: Seq<char>,
    xdp_iface: Option<Seq<char>>,
    io_uring: Seq<char>,
    color: bool,
) -> Seq<Seq<char>> {
    seq![
        row_line(color, "listen"@, listen),
        row_line(color, "admit"@, admit_text(s)),
        row_line(color, "kernel xdp"@, xdp_text(s.kernel_attached, xdp_iface)),
        row_line(color, "io_uring"@, io_uring),
        row_line(color, "rebalancer"@, rebalancer_text(s.actuation, s.current.pi)),
    ]
}

/// The line about KV accounting, where there is any.
pub open spec fn kv_lines(s: RouterState, color: bool) -> Seq<Seq<char>> {
    match s.ledger {
        Some(l) => seq![
            row_line(color, "kv pool"@, bytes_text(l.capacity) + " decode cap"@),
        ],
        None => Seq::empty(),
    }
}

/// The lines about the pools.
pub open spec fn front_lines(s: RouterState, color: bool) -> Seq<Seq<char>> {
    seq![
        border("╟"@, "─"@, "╢"@),
        row_line(color, "prefill pool"@, backends_text(s.prefill.len())),
        row_line(color, "decode pool"@, backends_text(s.decode.len())),
    ]
}

/// The last lines.
pub open spec fn back_lines(version: Seq<char>, color: bool) -> Seq<Seq<char>> {
    seq![
        border("╠"@, "═"@, "╣"@),
        line(ready_text(color, version)),
        border("╚"@, "═"@, "╝"@),
    ]
}

/// The lines about the pools and the last ones.
pub open spec fn foot_lines(s: RouterState, version: Seq<char>, color: bool) -> Seq<Seq<char>> {
    front_lines(s, color) + kv_lines(s, color) + back_lines(version, color)
}

/// The lines of the banner.
pub open spec fn banner_lines(
    s: RouterState,
    listen: Seq<char>,
    xdp_iface: Option<Seq<char>>,
    io_uring: Seq<char>,
    version: Seq<char>,
    color: bool,
) -> Seq<Seq<char>> {
    title_lines(color) + status_lines(s, listen, xdp_iface, io_uring, color) + foot_lines(
        s,
        version,
        color,
    )
}

fn repeat_text(text: &str, n: usize) -> (r: String)
    ensures
        r@ == repeated(text@, n as nat),
{
    let mut out: String = String::new();
    for i in 0..n
        invariant
            out@ == repeated(text@, i as nat),
    {
        out.append(text);
    }
    out
}

fn gap_text(n: usize, taken: usize) -> (r: String)
    ensures
        r@ == gap(n as nat, taken as nat),
{
    repeat_text(" ", n.saturating_sub(taken))
}

struct Style {
    enabled: bool,
}

impl Style {
    fn wrap(&self, code: &str, text: &str) -> (r: String)
        ensures
            r@ == painted(self.enabled, code@, text@),
    {
        if self.enabled {
            let mut out: String = code.to_owned();
            out.append(text);
            out.append("\x1b[0m");
            out
        } else {
            text.to_owned()
        }
    }

    fn title(&self, text: &str) -> (r: String)
        ensures
            r@ == painted(self.enabled, "\x1b[1;97m"@, text@),
    {
        self.wrap("\x1b[1;97m", text)
    }

    fn label(&self, text: &str) -> (r: String)
        ensures
            r@ == painted(self.enabled, "\x1b[2;36m"@, text@),
    {
        self.wrap("\x1b[2;36m", text)
    }

    fn value(&self, text: &str) -> (r: String)
        ensures
            r@ == painted(self.enabled, "\x1b[1m"@, text@),
    {
        self.wrap("\x1b[1m", text)
    }

    fn accent(&self, text: &str) -> (r: String)
        ensures
            r@ == painted(self.enabled, "\x1b[1;32m"@, text@),
    {
        self.wrap("\x1b[1;32m", text)
    }

    fn dim(&self, text: &str) -> (r: String)
        ensures
            r@ == painted(self.enabled, "\x1b[2m"@, text@),
    {
        self.wrap("\x1b[2m", text)
    }
}

fn pad(inner: &str) -> (r: String)
    ensures
        r@ == line(inner@),
{
    let mut out: String = "║ ".to_owned();
    out.append(inner);
    out.append(gap_text(INNER, visible_len(inner)).as_str());
    out.append(" ║");
    out
}

fn rule(left: &str, stroke: &str, right: &str) -> (r: String)
    ensures
        r@ == border(left@, stroke@, right@),
{
    let mut out: String = left.to_owned();
    out.append(repeat_text(stroke, WIDTH - 2).as_str());
    out.append(right);
    out
}

fn admit_label(mode: AdmitMode, kernel: bool) -> (r: &'static str)
    ensures
        r@ == mode_text(mode, kernel),
{
    match mode {
        AdmitMode::Userspace => "userspace token bucket",
        AdmitMode::KernelXdp => "kernel XDP shed",
        AdmitMode::Hybrid => if kernel {
            "hybrid · kernel XDP live"
        } else {
            "hybrid · userspace fallback"
        },
    }
}

/// A number of bytes in the unit that suits it.
pub fn format_bytes(bytes: u64) -> (r: String)
    ensures
        r@ == bytes_text(bytes),
{
    if bytes >= GIB && bytes % MIB == 0 {
        joined(decimal_text(bytes / GIB).as_str(), " GiB")
    } else if bytes >= MIB {
        let size: Real = Real::from_u64(bytes).over(Real::from_u64(MIB));
        proof {
            lemma2_to64();
            lemma_count_below(bytes as nat, 64);
            lemma_count_below(MIB as nat, 20);
            lemma_quotient_below(of_nat(bytes as nat), of_nat(MIB as nat), 1138, 1074);
            mib_fits(bytes);
        }
        let parts: u128 = size.to_parts(10);
        let mut out: String = decimal_text((parts / 10) as u64);
        out.append(".");
        out.append(digit_text((parts % 10) as u64));
        out.append(" MiB");
        out
    } else if bytes >= 1024 {
        joined(decimal_text(bytes / 1024).as_str(), " KiB")
    } else {
        joined(decimal_text(bytes).as_str(), " B")
    }
}

/// A count of mebibytes is far below `2^64`.
pub proof fn mib_fits(bytes: u64)
    ensures
        quotient(of_nat(bytes as nat), of_nat(MIB as nat)).finite(),
        units(quotient(of_nat(bytes as nat), of_nat(MIB as nat)).magnitude()) < pow2(1138),
        parts_of(quotient(of_nat(bytes as nat), of_nat(MIB as nat)), 10) <= u64::MAX,
{
    let x = of_nat(bytes as nat);
    let y = of_nat(MIB as nat);
    lemma2_to64();
    lemma_count_below(bytes as nat, 64);
    mib_encoding();
    lemma_quotient_below(x, y, 1138, 1094);
    lemma_pow2_strictly_increases(1118, 1138);
    let u = units(quotient(x, y).magnitude());
    vstd::arithmetic::power2::lemma_pow2_adds(44, 1074);
    vstd::arithmetic::power2::lemma_pow2_pos(1074);
    vstd::arithmetic::power2::lemma2_to64_rest();
    let d = pow2(1074);
    vstd::arithmetic::div_mod::lemma_fundamental_div_mod((u * 10) as int, d as int);
    let q = (u * 10) as int / d as int;
    let rest = (u * 10) as int % d as int;
    assert(q <= pow2(44) * 10) by (nonlinear_arith)
        requires
            u <= pow2(44) * d,
            u * 10 == d * q + rest,
            rest >= 0,
            d > 0,
    ;
}

/// A mebibyte is `2^20` bytes, exactly.
proof fn mib_encoding()
    ensures
        of_nat(MIB as nat).finite(),
        !of_nat(MIB as nat).negative(),
        units(of_nat(MIB as nat).magnitude()) >= pow2(1094),
{
    lemma2_to64();
    lemma_count_below(MIB as nat, 20);
    vstd::arithmetic::power2::lemma_pow2_adds(20, 1074);
    crate::binary64::lemma_units_of_power(1094);
    let top = (1043 * crate::rounding::HIDDEN_BIT) as u64;
    crate::binary64::lemma_nearest_bound(MIB as nat * pow2(1074), 1, top);
    let m = of_nat(MIB as nat).magnitude();
    if m > top {
        lemma_units_increase(top, m);
    }
}

fn format_share(pi: Real) -> (r: String)
    requires
        is_share(pi),
    ensures
        r@ == share_text(pi),
{
    if !pi.is_finite() {
        proof {
            if !pi.is_nan() {
                lemma_value_order(pi, one());
                lemma_value_order(one(), pi);
                lemma_value_order(zero(), pi);
                lemma_value_order(pi, zero());
            }
        }
        return "NaN".to_owned();
    }
    proof {
        lemma_share_parts(pi);
    }
    let parts: u64 = pi.to_parts(1000) as u64;
    let mut out: String = if pi.to_bits() >= crate::binary64::SIGN_BIT {
        "-".to_owned()
    } else {
        "".to_owned()
    };
    out.append(decimal_text(parts / 1000).as_str());
    out.append(".");
    out.append(digit_text(parts / 100 % 10));
    out.append(digit_text(parts / 10 % 10));
    out.append(digit_text(parts % 10));
    out
}

pub proof fn lemma_share_parts(pi: Real)
    requires
        is_share(pi),
        pi.finite(),
    ensures
        units(pi.magnitude()) < pow2(1138),
        parts_of(pi, 1000) <= 1001,
{
    lemma_value_order(zero(), pi);
    lemma_value_order(pi, zero());
    lemma_value_order(one(), pi);
    lemma_one_value();
    lemma_pow2_strictly_increases(1074, 1138);
    vstd::arithmetic::power2::lemma_pow2_pos(1074);
    let u = units(pi.magnitude());
    let d = pow2(1074);
    assert(u <= d) by {
        if pi.negative() {
            assert(units(0) == 0) by (nonlinear_arith);
        }
    }
    vstd::arithmetic::div_mod::lemma_fundamental_div_mod((u * 1000) as int, d as int);
    let q = (u * 1000) as int / d as int;
    let rest = (u * 1000) as int % d as int;
    assert(q <= 1000) by (nonlinear_arith)
        requires
            u <= d,
            u * 1000 == d * q + rest,
            rest >= 0,
            d > 0,
    ;
}

fn row(label: &str, value: &str, style: &Style) -> (r: String)
    ensures
        r@ == row_text(style.enabled, label@, value@),
{
    let n: usize = label.unicode_len();
    let filled: String = joined(label, gap_text(12, n).as_str());
    let left: String = joined("  ", style.label(filled.as_str()).as_str());
    let right: String = style.value(value);
    let taken: usize = visible_len(left.as_str()).saturating_add(visible_len(right.as_str()));
    let between: String = gap_text(INNER, taken);
    proof {
        assert(between@ =~= gap(INNER as nat, columns(left@) + columns(right@)));
    }
    let mut out: String = left;
    out.append(between.as_str());
    out.append(right.as_str());
    out
}

fn backends(n: usize) -> (r: String)
    ensures
        r@ == backends_text(n as nat),
{
    let mut out: String = decimal_text(n as u64);
    out.append(" backend");
    out.append(
        if n == 1 {
            ""
        } else {
            "s"
        },
    );
    out
}

fn title(style: &Style) -> (r: String)
    ensures
        r@ == title_text(style.enabled),
{
    let left: String = style.title("DEMIURGE ROUTER");
    let right: String = style.dim("phase-aware forwarder");
    let taken: usize = visible_len(left.as_str()).saturating_add(visible_len(right.as_str()));
    let between: String = gap_text(INNER, taken);
    proof {
        assert(between@ =~= gap(INNER as nat, columns(left@) + columns(right@)));
    }
    let mut out: String = left;
    out.append(between.as_str());
    out.append(right.as_str());
    out
}

fn ready(version: &str, style: &Style) -> (r: String)
    ensures
        r@ == ready_text(style.enabled, version@),
{
    let mut out: String = style.accent("● READY");
    out.append("  ");
    out.append(style.dim("accepting connections").as_str());
    out.append("  v");
    out.append(version);
    out.append("  ");
    out.append(style.dim("Ctrl+C to stop").as_str());
    out
}

fn push_row(out: &mut Vec<String>, label: &str, value: &str, style: &Style)
    ensures
        string_views(final(out)@) == string_views(old(out)@).push(
            row_line(style.enabled, label@, value@),
        ),
{
    let ghost before = out@;
    let l: String = pad(row(label, value, style).as_str());
    proof {
        reveal(row_line);
    }
    out.push(l);
    assert(string_views(out@) =~= string_views(before).push(l@));
}

fn push_line(out: &mut Vec<String>, l: String)
    ensures
        string_views(final(out)@) == string_views(old(out)@).push(l@),
{
    let ghost before = out@;
    out.push(l);
    assert(string_views(out@) =~= string_views(before).push(l@));
}

fn render_title(style: &Style) -> (r: Vec<String>)
    ensures
        string_views(r@) == title_lines(style.enabled),
{
    let mut out: Vec<String> = Vec::new();
    assert(string_views(out@) =~= Seq::<Seq<char>>::empty());
    push_line(&mut out, rule("╔", "═", "╗"));
    push_line(&mut out, pad(""));
    let mut first: String = joined("║ ", title(style).as_str());
    first.append(" ║");
    push_line(&mut out, first);
    let mut tagline: String = joined("KV-native routing", " · disaggregated prefill/decode");
    tagline.append(" · RCU dataplane");
    push_line(&mut out, pad(style.dim(tagline.as_str()).as_str()));
    push_line(&mut out, pad(""));
    push_line(&mut out, rule("╠", "═", "╣"));
    assert(string_views(out@) =~= title_lines(style.enabled));
    out
}

fn admit_value(router: &Router) -> (r: String)
    requires
        router.wf(),
    ensures
        r@ == admit_text(router@),
{
    let label: &'static str = admit_label(router.admit_mode(), router.kernel_admit_attached());
    let mut out: String = joined(label, " · burst ");
    out.append(decimal_text(router.admit_bucket().capacity()).as_str());
    out
}

fn xdp_value(kernel: bool, iface: Option<&str>) -> (r: String)
    ensures
        r@ == xdp_text(kernel, label_view(iface)),
{
    if !kernel {
        "off".to_owned()
    } else {
        match iface {
            Some(i) => joined("attached · ", i),
            None => "attached".to_owned(),
        }
    }
}

fn rebalancer_value(router: &Router) -> (r: String)
    requires
        router.wf(),
    ensures
        r@ == rebalancer_text(router@.actuation, router@.current.pi),
{
    if router.rebalancer_actuation() {
        joined("actuated · π=", format_share(router.dataplane_pi()).as_str())
    } else {
        "shadow".to_owned()
    }
}

fn render_status(
    router: &Router,
    listen: &str,
    xdp_iface: Option<&str>,
    io_uring: &str,
    style: &Style,
    out: &mut Vec<String>,
)
    requires
        router.wf(),
    ensures
        string_views(final(out)@) == string_views(old(out)@) + status_lines(
            router@,
            listen@,
            label_view(xdp_iface),
            io_uring@,
            style.enabled,
        ),
{
    let ghost before = string_views(out@);
    push_row(out, "listen", listen, style);
    push_row(out, "admit", admit_value(router).as_str(), style);
    let xdp: String = xdp_value(router.kernel_admit_attached(), xdp_iface);
    push_row(out, "kernel xdp", xdp.as_str(), style);
    push_row(out, "io_uring", io_uring, style);
    push_row(out, "rebalancer", rebalancer_value(router).as_str(), style);
    assert(string_views(out@) =~= before + status_lines(
        router@,
        listen@,
        label_view(xdp_iface),
        io_uring@,
        style.enabled,
    ));
}

fn render_foot(router: &Router, version: &str, style: &Style, out: &mut Vec<String>)
    requires
        router.wf(),
    ensures
        string_views(final(out)@) == string_views(old(out)@) + foot_lines(
            router@,
            version@,
            style.enabled,
        ),
{
    let ghost before = string_views(out@);
    push_line(out, rule("╟", "─", "╢"));
    let prefill: usize = router.pool(Phase::Prefill).len();
    let decode: usize = router.pool(Phase::Decode).len();
    push_row(out, "prefill pool", backends(prefill).as_str(), style);
    push_row(out, "decode pool", backends(decode).as_str(), style);
    match router.ledger() {
        Some(ledger) => {
            let capacity: String = joined(
                format_bytes(ledger.capacity_bytes()).as_str(),
                " decode cap",
            );
            push_row(out, "kv pool", capacity.as_str(), style);
        },
        None => {},
    }
    push_line(out, rule("╠", "═", "╣"));
    push_line(out, pad(ready(version, style).as_str()));
    push_line(out, rule("╚", "═", "╝"));
    assert(string_views(out@) =~= before + foot_lines(router@, version@, style.enabled));
}

/// Renders the startup banner. `io_uring` says what is known of the forwarding path.
pub fn render_startup_banner(
    router: &Router,
    listen: &str,
    xdp_iface: Option<&str>,
    io_uring: &str,
    version: &str,
    color: bool,
) -> (r: String)
    requires
        router.wf(),
    ensures
        r@ == text_of(
            banner_lines(
                router@,
                listen@,
                label_view(xdp_iface),
                io_uring@,
                version@,
                color,
            ),
        ),
{
    let style = Style { enabled: color };
    let mut lines: Vec<String> = render_title(&style);
    render_status(router, listen, xdp_iface, io_uring, &style, &mut lines);
    render_foot(router, version, &style, &mut lines);
    join_lines(&lines)
}

/// Whether the banner is shown: as the environment says, else on a terminal.
pub fn banner_enabled(value: Option<&str>, terminal: bool) -> (r: bool)
    ensures
        r == match value {
            Some(v) => if v@ == "0"@ || v@ == "false"@ || v@ == "no"@ {
                false
            } else if v@ == "1"@ || v@ == "true"@ || v@ == "yes"@ {
                true
            } else {
                terminal
            },
            None => terminal,
        },
{
    match value {
        Some(v) => {
            if same_text(v, "0") || same_text(v, "false")
                || same_text(v, "no") {
                false
            } else if same_text(v, "1") || same_text(v, "true")
                || same_text(v, "yes") {
                true
            } else {
                terminal
            }
        },
        None => terminal,
    }
}

/// Whether only one line is shown at startup; `value` is what the environment says.
pub fn quiet_mode(value: Option<&str>) -> (r: bool)
    ensures
        r == flag(label_view(value), false),
{
    env_bool(value, false)
}

/// Whether the banner is coloured: on a terminal, unless the environment says no.
pub fn color_enabled(no_color: Option<&str>, terminal: bool) -> (r: bool)
    ensures
        r <==> terminal && !(no_color matches Some(v) && (v@ == "1"@ || v@ == "true"@)),
{
    match no_color {
        Some(v) => terminal && !same_text(v, "1") && !same_text(v, "true"),
        None => terminal,
    }
}

/// The name of an admission mode.
pub open spec fn mode_name(mode: AdmitMode) -> Seq<char> {
    match mode {
        AdmitMode::Userspace => "Userspace"@,
        AdmitMode::KernelXdp => "KernelXdp"@,
        AdmitMode::Hybrid => "Hybrid"@,
    }
}

/// A truth value in words.
pub open spec fn truth_text(b: bool) -> Seq<char> {
    if b {
        "true"@
    } else {
        "false"@
    }
}

fn truth(b: bool) -> (r: &'static str)
    ensures
        r@ == truth_text(b),
{
    if b {
        "true"
    } else {
        "false"
    }
}

/// The one line that stands for the banner.
pub open spec fn summary_text(
    s: RouterState,
    listen: Seq<char>,
    io_uring: bool,
    version: Seq<char>,
) -> Seq<char> {
    "demiurge-router v"@ + version + " listening on "@ + listen + " (prefill="@ + number_text(
        s.prefill.len(),
    ) + ", decode="@ + number_text(s.decode.len()) + ", admit="@ + mode_name(s.admit_mode)
        + ", xdp="@ + truth_text(s.kernel_attached) + ", io_uring="@ + truth_text(io_uring) + ")"@
}

/// Renders the one line that stands for the banner.
pub fn render_startup_line(
    router: &Router,
    listen: &str,
    io_uring: bool,
    version: &str,
) -> (r: String)
    requires
        router.wf(),
    ensures
        r@ == summary_text(router@, listen@, io_uring, version@),
{
    let mut out: String = joined("demiurge-router v", version);
    out.append(" listening on ");
    out.append(listen);
    out.append(" (prefill=");
    out.append(decimal_text(router.pool(Phase::Prefill).len() as u64).as_str());
    out.append(", decode=");
    out.append(decimal_text(router.pool(Phase::Decode).len() as u64).as_str());
    out.append(", admit=");
    let mode: &'static str = match router.admit_mode() {
        AdmitMode::Userspace => "Userspace",
        AdmitMode::KernelXdp => "KernelXdp",
        AdmitMode::Hybrid => "Hybrid",
    };
    out.append(mode);
    out.append(", xdp=");
    out.append(truth(router.kernel_admit_attached()));
    out.append(", io_uring=");
    out.append(truth(io_uring));
    out.append(")");
    out
}

} // verus!
