//! KV hand-off between prefill and decode.

use vstd::prelude::*;
use vstd::slice::slice_subrange;
use std::collections::HashMap;
use crate::bytes::{
    ascii, ascii_bytes, ascii_eq_ci, digit_run, eq_ignoring_case, find_bytes, first_at,
    leading_number, lemma_first_at, parse_u64_digits, position_either, until_either, LF,
};
use crate::ids::IdSource;
use crate::ledger::push_bounded;
use crate::text::{decimal_text, is_word, joined, lowers_to, number_text};
use crate::stats::{percentile_of, percentile_sorted, sorted};
use crate::topology::{
    distance, place_of, rdma_distance, rdma_transfer_seconds, transfer_seconds, Place, TopologyId,
    TopologyMap,
};
use crate::binary64::nanos_of;

verus! {

broadcast use vstd::std_specs::hash::group_hash_axioms;

/// How many transfers the telemetry looks back on.
pub const TRANSFER_SAMPLES: usize = 1024;

/// Handle of a KV cache, published when prefill completes. Zero is no handle.
#[derive(Debug, Clone, Copy, PartialEq, Eq, Hash, Structural)]
pub struct KvHandle {
    handle: u64,
}

impl KvHandle {
    pub closed spec fn spec_raw(self) -> u64 {
        self.handle
    }

    /// A fresh handle.
    pub fn new(ids: &mut IdSource) -> (r: KvHandle)
        ensures
            r.spec_raw() == old(ids).upcoming(),
            final(ids).upcoming() == if r.spec_raw() == u64::MAX {
                0
            } else {
                r.spec_raw() + 1
            },
    {
        KvHandle { handle: ids.draw() }
    }

    /// The handle with this number, unless it is zero.
    pub fn from_raw(raw: u64) -> (r: Option<KvHandle>)
        ensures
            match r {
                Some(h) => raw != 0 && h.spec_raw() == raw,
                None => raw == 0,
            },
    {
        if raw == 0 {
            None
        } else {
            Some(KvHandle { handle: raw })
        }
    }

    #[verifier::when_used_as_spec(spec_raw)]
    pub fn raw(self) -> (r: u64)
        ensures
            r == self.spec_raw(),
    {
        self.handle
    }
}

/// What prefill hands over to decode.
#[derive(Debug, PartialEq, Eq)]
pub struct HandoffDescriptor {
    pub request_id: u64,
    pub kv_handle: KvHandle,
    pub byte_len: u64,
    pub source_label: String,
    /// Set before the transfer, for transports that look at the topology.
    pub decode_label: Option<String>,
}

/// What prefill hands over, as the contracts see it.
pub struct Handoff {
    pub request_id: u64,
    pub handle: u64,
    pub byte_len: u64,
    pub source: Seq<char>,
    pub decode: Option<Seq<char>>,
}

impl Handoff {
    /// A hand-off with a handle and at least one byte.
    pub open spec fn valid(self) -> bool {
        self.handle != 0 && self.byte_len > 0
    }
}

impl View for HandoffDescriptor {
    type V = Handoff;

    open spec fn view(&self) -> Handoff {
        Handoff {
            request_id: self.request_id,
            handle: self.kv_handle.spec_raw(),
            byte_len: self.byte_len,
            source: self.source_label@,
            decode: match self.decode_label {
                Some(l) => Some(l@),
                None => None,
            },
        }
    }
}

impl Clone for HandoffDescriptor {
    fn clone(&self) -> (r: HandoffDescriptor)
        ensures
            r@ == self@,
    {
        HandoffDescriptor {
            request_id: self.request_id,
            kv_handle: self.kv_handle,
            byte_len: self.byte_len,
            source_label: self.source_label.clone(),
            decode_label: match &self.decode_label {
                Some(l) => Some(l.clone()),
                None => None,
            },
        }
    }
}

impl HandoffDescriptor {
    /// Whether there is a handle and at least one byte.
    pub fn is_valid(&self) -> (r: bool)
        ensures
            r == self@.valid(),
    {
        self.kv_handle.raw() != 0 && self.byte_len > 0
    }
}

/// Length of the white-space character that `text` begins with, in UTF-8; zero if there is none.
pub open spec fn space_len(text: Seq<u8>) -> nat {
    if text.len() >= 1 && ((0x09 <= text[0] <= 0x0d) || text[0] == 0x20) {
        1
    } else if text.len() >= 2 && text[0] == 0xc2 && (text[1] == 0x85 || text[1] == 0xa0) {
        2
    } else if text.len() >= 3 && ((text[0] == 0xe1 && text[1] == 0x9a && text[2] == 0x80) || (
    text[0] == 0xe2 && text[1] == 0x80 && ((0x80 <= text[2] <= 0x8a) || text[2] == 0xa8 || text[2]
        == 0xa9 || text[2] == 0xaf)) || (text[0] == 0xe2 && text[1] == 0x81 && text[2] == 0x9f) || (
    text[0] == 0xe3 && text[1] == 0x80 && text[2] == 0x80)) {
        3
    } else {
        0
    }
}

/// `text` without leading white space.
pub open spec fn after_spaces(text: Seq<u8>) -> Seq<u8>
    decreases text.len(),
{
    let n = space_len(text);
    if n == 0 {
        text
    } else {
        after_spaces(text.skip(n as int))
    }
}

/// A decimal number between white space, after an optional plus sign.
pub open spec fn spaced_number(text: Seq<u8>) -> Option<u64> {
    let t = after_spaces(text);
    let digits = if t.len() > 0 && t[0] == 0x2b {
        t.drop_first()
    } else {
        t
    };
    if after_spaces(digits.skip(digit_run(digits) as int)).len() == 0 {
        leading_number(digits)
    } else {
        None
    }
}

/// What a response claims about its KV cache.
pub struct Claims {
    pub handle: Option<u64>,
    pub bytes: Option<u64>,
}

/// Whether a line begins with a header name and its colon, in any case.
pub open spec fn claims_under(line: Seq<u8>, name: Seq<u8>) -> bool {
    line.len() >= name.len() && eq_ignoring_case(line.take(name.len() as int), name)
}

/// The claims after one more line: a later claim replaces an earlier one, even if it is unreadable.
pub open spec fn after_line(c: Claims, line: Seq<u8>) -> Claims {
    let handle_name = ascii("x-demiurge-kv-handle:"@);
    let bytes_name = ascii("x-demiurge-kv-bytes:"@);
    if claims_under(line, handle_name) {
        Claims {
            handle: match spaced_number(line.skip(handle_name.len() as int)) {
                Some(h) if h != 0 => Some(h),
                _ => None,
            },
            ..c
        }
    } else if claims_under(line, bytes_name) {
        Claims { bytes: spaced_number(line.skip(bytes_name.len() as int)), ..c }
    } else {
        c
    }
}

/// The claims made by all lines of a text.
pub open spec fn claims_in(text: Seq<u8>, c: Claims) -> Claims
    decreases text.len(),
{
    if text.len() == 0 {
        c
    } else {
        let end = until_either(text, LF, LF);
        let next = after_line(c, text.take(end as int));
        if end >= text.len() {
            next
        } else {
            claims_in(text.skip(end as int + 1), next)
        }
    }
}

/// Headers of a response: everything through the first blank line.
pub open spec fn headers_of(response: Seq<u8>) -> Seq<u8> {
    match first_at(response, ascii("\r\n\r\n"@), 0) {
        Some(at) => response.take(at + 4),
        None => response,
    }
}

/// The hand-off that a response announces in its headers.
pub open spec fn announced(response: Seq<u8>, request_id: u64, source: Seq<char>) -> Option<
    Handoff,
> {
    let c = claims_in(headers_of(response), Claims { handle: None, bytes: None });
    match (c.handle, c.bytes) {
        (Some(handle), Some(byte_len)) => Some(
            Handoff { request_id, handle, byte_len, source, decode: None },
        ),
        _ => None,
    }
}

fn white_len(text: &[u8]) -> (r: usize)
    ensures
        r == space_len(text@),
        r <= text@.len(),
{
    let n: usize = text.len();
    if n >= 1 && ((0x09 <= text[0] && text[0] <= 0x0d) || text[0] == 0x20) {
        1
    } else if n >= 2 && text[0] == 0xc2 && (text[1] == 0x85 || text[1] == 0xa0) {
        2
    } else if n >= 3 && ((text[0] == 0xe1 && text[1] == 0x9a && text[2] == 0x80) || (text[0] == 0xe2
        && text[1] == 0x80 && ((0x80 <= text[2] && text[2] <= 0x8a) || text[2] == 0xa8 || text[2]
        == 0xa9 || text[2] == 0xaf)) || (text[0] == 0xe2 && text[1] == 0x81 && text[2] == 0x9f) || (
    text[0] == 0xe3 && text[1] == 0x80 && text[2] == 0x80)) {
        3
    } else {
        0
    }
}

fn skip_white(text: &[u8]) -> (r: &[u8])
    ensures
        r@ == after_spaces(text@),
{
    let n: usize = text.len();
    let mut i: usize = 0;
    assert(text@.skip(0) =~= text@);
    while i < n
        invariant
            n == text@.len(),
            i <= n,
            after_spaces(text@) == after_spaces(text@.skip(i as int)),
        decreases n - i,
    {
        let rest: &[u8] = slice_subrange(text, i, n);
        assert(rest@ =~= text@.skip(i as int));
        let w: usize = white_len(rest);
        if w == 0 {
            return rest;
        }
        assert(rest@.skip(w as int) =~= text@.skip(i + w));
        i = i + w;
    }
    assert(text@.skip(n as int).len() == 0);
    let rest: &[u8] = slice_subrange(text, n, n);
    assert(rest@ =~= text@.skip(n as int));
    rest
}

fn digits_at_front(text: &[u8]) -> (r: usize)
    ensures
        r == digit_run(text@),
        r <= text@.len(),
{
    let n: usize = text.len();
    let mut i: usize = 0;
    assert(text@.skip(0) =~= text@);
    while i < n && 0x30 <= text[i] && text[i] <= 0x39
        invariant
            n == text@.len(),
            i <= n,
            digit_run(text@) == i + digit_run(text@.skip(i as int)),
        decreases n - i,
    {
        assert(text@.skip(i as int)[0] == text@[i as int]);
        assert(text@.skip(i as int).drop_first() =~= text@.skip(i + 1));
        i = i + 1;
    }
    assert(i < n ==> text@.skip(i as int)[0] == text@[i as int]);
    i
}

fn parse_spaced_number(text: &[u8]) -> (r: Option<u64>)
    ensures
        r == spaced_number(text@),
{
    let t: &[u8] = skip_white(text);
    let digits: &[u8] = if t.len() > 0 && t[0] == 0x2b {
        let rest: &[u8] = slice_subrange(t, 1, t.len());
        assert(rest@ =~= t@.drop_first());
        rest
    } else {
        t
    };
    let run: usize = digits_at_front(digits);
    let behind: &[u8] = slice_subrange(digits, run, digits.len());
    assert(behind@ =~= digits@.skip(run as int));
    if skip_white(behind).len() == 0 {
        parse_u64_digits(digits)
    } else {
        None
    }
}

/// Whether a line begins with a header name and its colon; if so, what stands behind it.
fn behind_name<'a>(line: &'a [u8], name: &[u8]) -> (r: Option<&'a [u8]>)
    ensures
        match r {
            Some(rest) => claims_under(line@, name@) && rest@ == line@.skip(name@.len() as int),
            None => !claims_under(line@, name@),
        },
{
    if line.len() < name.len() {
        return None;
    }
    let front: &[u8] = slice_subrange(line, 0, name.len());
    assert(front@ =~= line@.take(name@.len() as int));
    if ascii_eq_ci(front, name) {
        let rest: &[u8] = slice_subrange(line, name.len(), line.len());
        assert(rest@ =~= line@.skip(name@.len() as int));
        Some(rest)
    } else {
        None
    }
}

/// Reads the hand-off out of a prefill response. Only headers count: lines of the body are ignored
/// whatever they look like.
pub fn parse_prefill_handoff(response: &[u8], request_id: u64, source_label: &str) -> (r: Option<
    HandoffDescriptor,
>)
    ensures
        match r {
            Some(d) => announced(response@, request_id, source_label@) == Some(d@),
            None => announced(response@, request_id, source_label@) is None,
        },
{
    proof {
        reveal_strlit("\r\n\r\n");
        reveal_strlit("x-demiurge-kv-handle:");
        reveal_strlit("x-demiurge-kv-bytes:");
        lemma_first_at(response@, ascii("\r\n\r\n"@), 0);
    }
    let blank: &[u8] = ascii_bytes("\r\n\r\n");
    assert(blank@.len() == 4);
    let total: usize = response.len();
    let end: usize = match find_bytes(response, blank) {
        Some(at) => at + 4,
        None => total,
    };
    let text: &[u8] = slice_subrange(response, 0, end);
    assert(text@ =~= headers_of(response@));
    let handle_name: &[u8] = ascii_bytes("x-demiurge-kv-handle:");
    let bytes_name: &[u8] = ascii_bytes("x-demiurge-kv-bytes:");
    let n: usize = text.len();
    let mut handle: Option<KvHandle> = None;
    let mut bytes: Option<u64> = None;
    let mut i: usize = 0;
    let ghost nothing = Claims { handle: None, bytes: None };
    let ghost mut c = nothing;
    assert(text@.skip(0) =~= text@);
    while i < n
        invariant
            n == text@.len(),
            i <= n,
            handle_name@ == ascii("x-demiurge-kv-handle:"@),
            bytes_name@ == ascii("x-demiurge-kv-bytes:"@),
            claims_in(text@, nothing) == claims_in(text@.skip(i as int), c),
            c.bytes == bytes,
            c.handle == (match handle {
                Some(h) => Some(h.spec_raw()),
                None => None,
            }),
        decreases n - i,
    {
        let rest: &[u8] = slice_subrange(text, i, n);
        assert(rest@ =~= text@.skip(i as int));
        let stop: usize = position_either(rest, LF, LF);
        let line: &[u8] = slice_subrange(rest, 0, stop);
        assert(line@ =~= rest@.take(stop as int));
        if let Some(value) = behind_name(line, handle_name) {
            handle = match parse_spaced_number(value) {
                Some(raw) => KvHandle::from_raw(raw),
                None => None,
            };
        } else if let Some(value) = behind_name(line, bytes_name) {
            bytes = parse_spaced_number(value);
        }
        proof {
            c = after_line(c, line@);
        }
        if stop >= rest.len() {
            i = n;
            assert(text@.skip(n as int).len() == 0);
        } else {
            assert(rest@.skip(stop as int + 1) =~= text@.skip(i + stop + 1));
            i = i + stop + 1;
        }
    }
    assert(text@.skip(n as int).len() == 0);
    match handle {
        Some(kv_handle) => match bytes {
            Some(byte_len) => Some(
                HandoffDescriptor {
                    request_id,
                    kv_handle,
                    byte_len,
                    source_label: source_label.to_owned(),
                    decode_label: None,
                },
            ),
            None => None,
        },
        None => None,
    }
}

/// Nothing behind the blank line of a response has any influence on what it announces.
pub proof fn body_is_ignored(head: Seq<u8>, body: Seq<u8>, request_id: u64, source: Seq<char>)
    requires
        first_at(head, ascii("\r\n\r\n"@), 0) == Some(head.len() - 4),
    ensures
        announced(head + body, request_id, source) == announced(head, request_id, source),
{
    let blank = ascii("\r\n\r\n"@);
    let whole = head + body;
    reveal_strlit("\r\n\r\n");
    lemma_first_at(head, blank, 0);
    lemma_first_at(whole, blank, 0);
    let at = head.len() - 4;
    assert(whole.subrange(at, at + 4) =~= head.subrange(at, at + 4));
    assert(crate::bytes::stands_at(whole, blank, at));
    assert forall|j: int| 0 <= j < at implies !crate::bytes::stands_at(whole, blank, j) by {
        assert(whole.subrange(j, j + 4) =~= head.subrange(j, j + 4));
        assert(!crate::bytes::stands_at(head, blank, j));
    }
    assert(first_at(whole, blank, 0) == Some(at));
    assert(whole.take(at + 4) =~= head);
    assert(head.take(at + 4) =~= head);
}

/// Transfer cost over recent hand-offs.
#[derive(Debug, Clone, Copy, PartialEq, Eq, Structural)]
pub struct HandoffTransferMetrics {
    pub count: u64,
    pub bytes_p50: u64,
    pub bytes_p99: u64,
    pub wall_us_p50: u64,
    pub wall_us_p99: u64,
}

/// What the registry holds, as the contracts see it.
pub struct HandoffState {
    pub pending: Map<u64, Handoff>,
    pub bytes: Seq<u64>,
    pub walls_us: Seq<u64>,
}

/// A registry that holds nothing.
pub open spec fn fresh_handoffs() -> HandoffState {
    HandoffState { pending: Map::empty(), bytes: Seq::empty(), walls_us: Seq::empty() }
}

impl HandoffState {
    /// Each transfer has a size and a wall time, and only so many are kept.
    pub open spec fn valid(self) -> bool {
        &&& self.bytes.len() == self.walls_us.len()
        &&& self.bytes.len() <= TRANSFER_SAMPLES
        &&& forall|id: u64| #[trigger]
            self.pending.contains_key(id) ==> self.pending[id].valid()
                && self.pending[id].request_id == id
    }

    /// The registry after a hand-off was published; an invalid one is dropped.
    pub open spec fn after_publish(self, h: Handoff) -> HandoffState {
        if h.valid() {
            HandoffState { pending: self.pending.insert(h.request_id, h), ..self }
        } else {
            self
        }
    }

    /// The registry after a hand-off was taken out.
    pub open spec fn after_take(self, id: u64) -> HandoffState {
        HandoffState { pending: self.pending.remove(id), ..self }
    }

    /// The hand-off of a request.
    pub open spec fn lookup(self, id: u64) -> Option<Handoff> {
        if self.pending.contains_key(id) {
            Some(self.pending[id])
        } else {
            None
        }
    }

    /// The registry after a transfer was recorded; an empty one is not.
    pub open spec fn after_transfer(self, bytes: u64, wall_ns: u128) -> HandoffState {
        if bytes == 0 {
            self
        } else {
            HandoffState {
                bytes: push_bounded(self.bytes, TRANSFER_SAMPLES as nat, bytes),
                walls_us: push_bounded(
                    self.walls_us,
                    TRANSFER_SAMPLES as nat,
                    whole_micros(wall_ns),
                ),
                ..self
            }
        }
    }
}

impl HandoffState {
    /// What transfers cost, in one line.
    pub open spec fn cost_line(self, label: Seq<char>) -> Seq<char> {
        "handoff-transfer: "@ + label + " n="@ + number_text(self.bytes.len())
            + " bytes p50/p99="@ + number_text(percentile_of(self.bytes, 50) as nat) + "/"@
            + number_text(percentile_of(self.bytes, 99) as nat) + " wall_us p50/p99="@
            + number_text(percentile_of(self.walls_us, 50) as nat) + "/"@ + number_text(
            percentile_of(self.walls_us, 99) as nat,
        )
    }
}

/// Whole microseconds, held within 64 bits.
pub open spec fn whole_micros(wall_ns: u128) -> u64 {
    if wall_ns / 1000 > u64::MAX {
        u64::MAX
    } else {
        (wall_ns / 1000) as u64
    }
}

/// Whole microseconds of a duration in nanoseconds.
pub fn micros(wall_ns: u128) -> (r: u64)
    ensures
        r == whole_micros(wall_ns),
{
    let us: u128 = wall_ns / 1000;
    if us > u64::MAX as u128 {
        u64::MAX
    } else {
        us as u64
    }
}

/// Hand-offs that prefill has published and decode has not taken yet.
#[derive(Debug)]
pub struct HandoffRegistry {
    pending: HashMap<u64, HandoffDescriptor>,
    transfer_bytes: Vec<u64>,
    transfer_wall_us: Vec<u64>,
}

impl View for HandoffRegistry {
    type V = HandoffState;

    closed spec fn view(&self) -> HandoffState {
        HandoffState {
            pending: self.pending@.map_values(|d: HandoffDescriptor| d@),
            bytes: self.transfer_bytes@,
            walls_us: self.transfer_wall_us@,
        }
    }
}

fn push_recent(samples: &mut Vec<u64>, sample: u64)
    ensures
        final(samples)@ == push_bounded(old(samples)@, TRANSFER_SAMPLES as nat, sample),
{
    let ghost before = samples@;
    if samples.len() >= TRANSFER_SAMPLES {
        samples.remove(0);
        assert(samples@ =~= before.drop_first());
    }
    samples.push(sample);
}

fn copy_samples(samples: &Vec<u64>) -> (r: Vec<u64>)
    ensures
        r@ == samples@,
{
    let mut out: Vec<u64> = Vec::new();
    let n: usize = samples.len();
    for i in 0..n
        invariant
            n == samples@.len(),
            out@ =~= samples@.take(i as int),
    {
        out.push(samples[i]);
    }
    assert(out@ =~= samples@);
    out
}

impl HandoffRegistry {
    /// An empty registry.
    pub fn new() -> (r: HandoffRegistry)
        ensures
            r@.valid(),
            r@ == fresh_handoffs(),
    {
        let r = HandoffRegistry {
            pending: HashMap::new(),
            transfer_bytes: Vec::new(),
            transfer_wall_us: Vec::new(),
        };
        assert(r@.pending =~= Map::<u64, Handoff>::empty());
        r
    }

    /// Publishes a hand-off under its request; an invalid one is dropped.
    pub fn publish(&mut self, desc: HandoffDescriptor)
        requires
            old(self)@.valid(),
        ensures
            final(self)@ == old(self)@.after_publish(desc@),
            final(self)@.valid(),
    {
        let ghost before = self@;
        if !desc.is_valid() {
            return;
        }
        let id: u64 = desc.request_id;
        let ghost d = desc@;
        self.pending.insert(id, desc);
        assert(self@.pending =~= before.pending.insert(id, d));
    }

    /// The hand-off of a request, which stays published.
    pub fn get(&self, request_id: u64) -> (r: Option<HandoffDescriptor>)
        ensures
            match r {
                Some(d) => self@.lookup(request_id) == Some(d@),
                None => self@.lookup(request_id) is None,
            },
    {
        match self.pending.get(&request_id) {
            Some(d) => Some(d.clone()),
            None => None,
        }
    }

    /// Takes the hand-off of a request out of the registry.
    pub fn take(&mut self, request_id: u64) -> (r: Option<HandoffDescriptor>)
        requires
            old(self)@.valid(),
        ensures
            final(self)@ == old(self)@.after_take(request_id),
            final(self)@.valid(),
            match r {
                Some(d) => old(self)@.lookup(request_id) == Some(d@),
                None => old(self)@.lookup(request_id) is None,
            },
    {
        let ghost before = self@;
        let r = self.pending.remove(&request_id);
        assert(self@.pending =~= before.pending.remove(request_id));
        r
    }

    /// Records a completed transfer.
    pub fn record_transfer(&mut self, bytes: u64, wall_ns: u128)
        requires
            old(self)@.valid(),
        ensures
            final(self)@ == old(self)@.after_transfer(bytes, wall_ns),
            final(self)@.valid(),
    {
        if bytes == 0 {
            return;
        }
        push_recent(&mut self.transfer_bytes, bytes);
        push_recent(&mut self.transfer_wall_us, micros(wall_ns));
    }

    /// Medians and 99th percentiles of recorded transfers.
    pub fn transfer_metrics(&self) -> (r: HandoffTransferMetrics)
        requires
            self@.valid(),
        ensures
            r.count == self@.bytes.len(),
            r.bytes_p50 == percentile_of(self@.bytes, 50),
            r.bytes_p99 == percentile_of(self@.bytes, 99),
            r.wall_us_p50 == percentile_of(self@.walls_us, 50),
            r.wall_us_p99 == percentile_of(self@.walls_us, 99),
    {
        let bytes: Vec<u64> = sorted(copy_samples(&self.transfer_bytes));
        let walls: Vec<u64> = sorted(copy_samples(&self.transfer_wall_us));
        HandoffTransferMetrics {
            count: bytes.len() as u64,
            bytes_p50: percentile_sorted(&bytes, 50),
            bytes_p99: percentile_sorted(&bytes, 99),
            wall_us_p50: percentile_sorted(&walls, 50),
            wall_us_p99: percentile_sorted(&walls, 99),
        }
    }

    /// One line on what transfers cost, for the log; none without a transfer.
    pub fn log_transfer_cost(&self, label: &str) -> (r: Option<String>)
        requires
            self@.valid(),
        ensures
            match r {
                Some(line) => self@.bytes.len() > 0 && line@ == self@.cost_line(label@),
                None => self@.bytes.len() == 0,
            },
    {
        if self.transfer_bytes.len() == 0 {
            return None;
        }
        let m: HandoffTransferMetrics = self.transfer_metrics();
        let mut out: String = joined("handoff-transfer: ", label);
        out.append(" n=");
        out.append(decimal_text(m.count).as_str());
        out.append(" bytes p50/p99=");
        out.append(decimal_text(m.bytes_p50).as_str());
        out.append("/");
        out.append(decimal_text(m.bytes_p99).as_str());
        out.append(" wall_us p50/p99=");
        out.append(decimal_text(m.wall_us_p50).as_str());
        out.append("/");
        out.append(decimal_text(m.wall_us_p99).as_str());
        Some(out)
    }
}

/// What was published is what is taken, once: the second take finds nothing.
pub proof fn take_returns_what_was_published(s: HandoffState, h: Handoff)
    requires
        h.valid(),
    ensures
        s.after_publish(h).lookup(h.request_id) == Some(h),
        s.after_publish(h).after_take(h.request_id).lookup(h.request_id) is None,
{
}

/// Result of a completed transfer.
#[derive(Debug, Clone, Copy, PartialEq, Eq, Structural)]
pub struct TransferOutcome {
    pub bytes: u64,
    pub wall_ns: u128,
}

/// Moves KV bytes from prefill to decode.
pub trait HandoffTransport {
    /// Whether the transport may report `outcome` when it moved a hand-off whose prefill took so
    /// long.
    spec fn reports(&self, h: Handoff, prefill_wall_ns: u128, outcome: TransferOutcome) -> bool;

    fn transfer(&self, desc: &HandoffDescriptor, prefill_wall_ns: u128) -> (r: TransferOutcome)
        ensures
            self.reports(desc@, prefill_wall_ns, r),
    ;
}

/// The transfer happened as part of prefill: it took as long as prefill did.
#[derive(Debug, Clone, Copy)]
pub struct HeaderPassthroughTransport;

impl HandoffTransport for HeaderPassthroughTransport {
    open spec fn reports(
        &self,
        h: Handoff,
        prefill_wall_ns: u128,
        outcome: TransferOutcome,
    ) -> bool {
        outcome == (TransferOutcome { bytes: h.byte_len, wall_ns: prefill_wall_ns })
    }

    fn transfer(&self, desc: &HandoffDescriptor, prefill_wall_ns: u128) -> (r: TransferOutcome) {
        TransferOutcome { bytes: desc.byte_len, wall_ns: prefill_wall_ns }
    }
}

/// Latency of the mock transport unless another is given.
pub const DEFAULT_LATENCY_US: u64 = 50;

/// A transport with one fixed latency.
#[derive(Debug, Clone, Copy)]
pub struct MockRdmaTransport {
    pub latency_us: u64,
}

impl MockRdmaTransport {
    pub fn new(latency_us: u64) -> (r: MockRdmaTransport)
        ensures
            r.latency_us == latency_us,
    {
        MockRdmaTransport { latency_us }
    }
}

impl Default for MockRdmaTransport {
    fn default() -> (r: MockRdmaTransport)
        ensures
            r.latency_us == DEFAULT_LATENCY_US,
    {
        MockRdmaTransport::new(DEFAULT_LATENCY_US)
    }
}

impl HandoffTransport for MockRdmaTransport {
    open spec fn reports(
        &self,
        h: Handoff,
        prefill_wall_ns: u128,
        outcome: TransferOutcome,
    ) -> bool {
        outcome.bytes == h.byte_len && outcome.wall_ns == self.latency_us * 1000
    }

    fn transfer(&self, desc: &HandoffDescriptor, prefill_wall_ns: u128) -> (r: TransferOutcome) {
        TransferOutcome { bytes: desc.byte_len, wall_ns: self.latency_us as u128 * 1000 }
    }
}

/// A transport whose latency follows from topology and bandwidth.
#[derive(Debug)]
pub struct ModeledRdmaTransport {
    topology: TopologyMap,
}

/// The transfer distance of a hand-off; without a decode label it stays where it is.
pub open spec fn handoff_distance(places: Map<Seq<char>, Place>, h: Handoff) -> u64 {
    distance(
        place_of(places, h.source),
        place_of(
            places,
            match h.decode {
                Some(l) => l,
                None => h.source,
            },
        ),
    )
}

impl ModeledRdmaTransport {
    /// Where the backends run.
    pub closed spec fn places(self) -> Map<Seq<char>, Place> {
        self.topology@
    }

    pub fn new(topology: TopologyMap) -> (r: ModeledRdmaTransport)
        ensures
            r.places() == topology@,
    {
        ModeledRdmaTransport { topology }
    }
}

impl HandoffTransport for ModeledRdmaTransport {
    open spec fn reports(
        &self,
        h: Handoff,
        prefill_wall_ns: u128,
        outcome: TransferOutcome,
    ) -> bool {
        &&& outcome.bytes == h.byte_len
        &&& outcome.wall_ns == nanos_of(
            transfer_seconds(h.byte_len, handoff_distance(self.places(), h)),
        )
    }

    fn transfer(&self, desc: &HandoffDescriptor, prefill_wall_ns: u128) -> (r: TransferOutcome) {
        let pf: TopologyId = self.topology.place(desc.source_label.as_str());
        let dc: TopologyId = match &desc.decode_label {
            Some(l) => self.topology.place(l.as_str()),
            None => self.topology.place(desc.source_label.as_str()),
        };
        let seconds = rdma_transfer_seconds(desc.byte_len, rdma_distance(&pf, &dc));
        TransferOutcome { bytes: desc.byte_len, wall_ns: seconds.to_nanos() }
    }
}

/// The transport that the environment chose.
#[derive(Debug)]
pub enum ChosenTransport {
    Tcp(HeaderPassthroughTransport),
    Mock(MockRdmaTransport),
    Modeled(ModeledRdmaTransport),
}

impl HandoffTransport for ChosenTransport {
    open spec fn reports(
        &self,
        h: Handoff,
        prefill_wall_ns: u128,
        outcome: TransferOutcome,
    ) -> bool {
        match self {
            ChosenTransport::Tcp(t) => t.reports(h, prefill_wall_ns, outcome),
            ChosenTransport::Mock(t) => t.reports(h, prefill_wall_ns, outcome),
            ChosenTransport::Modeled(t) => t.reports(h, prefill_wall_ns, outcome),
        }
    }

    fn transfer(&self, desc: &HandoffDescriptor, prefill_wall_ns: u128) -> (r: TransferOutcome) {
        match self {
            ChosenTransport::Tcp(t) => t.transfer(desc, prefill_wall_ns),
            ChosenTransport::Mock(t) => t.transfer(desc, prefill_wall_ns),
            ChosenTransport::Modeled(t) => t.transfer(desc, prefill_wall_ns),
        }
    }
}

/// Chooses the transport; `value` is what the environment says.
pub fn handoff_transport_from_env(
    value: Option<&str>,
    topology: TopologyMap,
) -> (r: ChosenTransport)
    ensures
        match value {
            Some(v) => if lowers_to(v@, "mock_rdma"@) {
                r matches ChosenTransport::Mock(t) && t.latency_us == DEFAULT_LATENCY_US
            } else if lowers_to(v@, "modeled_rdma"@) {
                r matches ChosenTransport::Modeled(t) && t.places() == topology@
            } else {
                r is Tcp
            },
            None => r is Tcp,
        },
{
    match value {
        Some(v) => {
            if is_word(v, "mock_rdma") {
                ChosenTransport::Mock(MockRdmaTransport::new(DEFAULT_LATENCY_US))
            } else if is_word(v, "modeled_rdma") {
                ChosenTransport::Modeled(ModeledRdmaTransport::new(topology))
            } else {
                ChosenTransport::Tcp(HeaderPassthroughTransport)
            }
        },
        None => ChosenTransport::Tcp(HeaderPassthroughTransport),
    }
}

} // verus!
