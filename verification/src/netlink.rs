//! Netlink messages that attach, detach and query an XDP program.
//!
//! Integers stand in the host's byte order, which the caller names.

use vstd::prelude::*;
use vstd::slice::slice_subrange;
use crate::endian::{
    byte_range, bytes_in, lemma_le_bytes_len, value_in, ByteOrder,
};
use crate::secret::append_bytes;

verus! {

/// Size of a message header.
pub const HEADER_LEN: usize = 16;

/// Size of the interface part of a link message.
pub const IFINFO_LEN: usize = 16;

/// Size of an attribute header.
pub const ATTR_LEN: usize = 4;

pub const RTM_NEWLINK: u16 = 16;

pub const RTM_GETLINK: u16 = 18;

pub const RTM_SETLINK: u16 = 19;

pub const NLMSG_ERROR: u16 = 2;

pub const NLMSG_DONE: u16 = 3;

pub const NLM_F_REQUEST: u16 = 1;

pub const NLM_F_ACK: u16 = 4;

pub const IFLA_XDP: u16 = 43;

pub const IFLA_XDP_FD: u16 = 1;

pub const IFLA_XDP_ATTACHED: u16 = 2;

pub const IFLA_XDP_FLAGS: u16 = 3;

pub const IFLA_XDP_PROG_ID: u16 = 4;

pub const IFLA_XDP_DRV_PROG_ID: u16 = 5;

pub const IFLA_XDP_SKB_PROG_ID: u16 = 6;

pub const IFLA_XDP_HW_PROG_ID: u16 = 7;

pub const XDP_ATTACHED_NONE: u8 = 0;

/// Marks an attribute that holds attributes.
pub const NLA_F_NESTED: u16 = 0x8000;

/// Attribute types have 14 bits; the two above are flags.
pub const NLA_TYPE_RANGE: u16 = 0x4000;

/// `len` rounded up to a multiple of four.
pub open spec fn aligned(len: nat) -> nat {
    ((len + 3) / 4 * 4) as nat
}

/// Rounds a length up to a multiple of four.
pub fn nla_align(len: usize) -> (r: usize)
    requires
        len + 3 <= usize::MAX,
    ensures
        r == aligned(len as nat),
{
    (len + 3) / 4 * 4
}

/// As many zero bytes as bring `len` to a multiple of four.
pub open spec fn padding(len: nat) -> Seq<u8> {
    Seq::new((aligned(len) - len) as nat, |i: int| 0u8)
}

/// An attribute: length, type, payload.
pub open spec fn attr_bytes(order: ByteOrder, kind: u16, payload: Seq<u8>) -> Seq<u8> {
    bytes_in(order, ((ATTR_LEN + payload.len()) % 0x1_0000) as nat, 2) + bytes_in(
        order,
        kind as nat,
        2,
    ) + payload
}

/// A buffer with an attribute behind it, filled up to a multiple of four.
pub open spec fn with_attr(buf: Seq<u8>, order: ByteOrder, kind: u16, payload: Seq<u8>) -> Seq<u8> {
    let grown = buf + attr_bytes(order, kind, payload);
    grown + padding(grown.len())
}

/// The unsigned number with the same four bytes.
pub open spec fn unsigned(x: i32) -> u32 {
    if x >= 0 {
        x as u32
    } else {
        (x + 0x1_0000_0000) as u32
    }
}

/// The signed number with the same four bytes.
pub open spec fn as_signed(x: nat) -> i32 {
    if x <= 0x7fff_ffff {
        x as i32
    } else {
        (x - 0x1_0000_0000) as i32
    }
}

fn to_unsigned(x: i32) -> (r: u32)
    ensures
        r == unsigned(x),
{
    if x >= 0 {
        x as u32
    } else {
        (x as i64 + 0x1_0000_0000) as u32
    }
}

fn to_signed(x: u32) -> (r: i32)
    ensures
        r == as_signed(x as nat),
{
    if x <= 0x7fff_ffff {
        x as i32
    } else {
        (x as i64 - 0x1_0000_0000) as i32
    }
}

/// Appends two bytes.
fn push_u16(buf: &mut Vec<u8>, order: ByteOrder, x: u16)
    ensures
        final(buf)@ == old(buf)@ + bytes_in(order, x as nat, 2),
{
    let ghost start = buf@;
    let lo: u8 = (x % 256) as u8;
    let hi: u8 = (x / 256 % 256) as u8;
    proof {
        reveal_with_fuel(crate::endian::le_bytes, 3);
        assert(crate::endian::le_bytes(x as nat, 2) =~= seq![lo, hi]);
        assert(seq![lo, hi].reverse() =~= seq![hi, lo]);
    }
    match order {
        ByteOrder::Little => {
            buf.push(lo);
            buf.push(hi);
            assert(buf@ =~= start + seq![lo, hi]);
        },
        ByteOrder::Big => {
            buf.push(hi);
            buf.push(lo);
            assert(buf@ =~= start + seq![hi, lo]);
        },
    }
}

/// Appends four bytes.
fn push_u32(buf: &mut Vec<u8>, order: ByteOrder, x: u32)
    ensures
        final(buf)@ == old(buf)@ + bytes_in(order, x as nat, 4),
{
    let ghost start = buf@;
    let b0: u8 = (x % 256) as u8;
    let b1: u8 = (x / 256 % 256) as u8;
    let b2: u8 = (x / 65536 % 256) as u8;
    let b3: u8 = (x / 16777216 % 256) as u8;
    proof {
        reveal_with_fuel(crate::endian::le_bytes, 5);
        assert(crate::endian::le_bytes(x as nat, 4) =~= seq![b0, b1, b2, b3]);
        assert(seq![b0, b1, b2, b3].reverse() =~= seq![b3, b2, b1, b0]);
    }
    match order {
        ByteOrder::Little => {
            buf.push(b0);
            buf.push(b1);
            buf.push(b2);
            buf.push(b3);
            assert(buf@ =~= start + seq![b0, b1, b2, b3]);
        },
        ByteOrder::Big => {
            buf.push(b3);
            buf.push(b2);
            buf.push(b1);
            buf.push(b0);
            assert(buf@ =~= start + seq![b3, b2, b1, b0]);
        },
    }
}

/// Appends an attribute and fills the buffer up to a multiple of four.
pub fn push_nla_bytes(buf: &mut Vec<u8>, order: ByteOrder, nla_type: u16, payload: &[u8])
    requires
        old(buf)@.len() + payload@.len() + 8 <= usize::MAX,
    ensures
        final(buf)@ == with_attr(old(buf)@, order, nla_type, payload@),
{
    let ghost start = buf@;
    let nla_len: usize = ATTR_LEN + payload.len();
    push_u16(buf, order, (nla_len % 0x1_0000) as u16);
    push_u16(buf, order, nla_type);
    append_bytes(buf, payload);
    let ghost grown = start + attr_bytes(order, nla_type, payload@);
    assert(buf@ =~= grown);
    proof {
        lemma_le_bytes_len((nla_len % 0x1_0000) as nat, 2);
        lemma_le_bytes_len(nla_type as nat, 2);
    }
    while buf.len() % 4 != 0
        invariant
            grown.len() <= buf@.len() <= aligned(grown.len()) <= usize::MAX,
            buf@ =~= grown + Seq::new((buf@.len() - grown.len()) as nat, |i: int| 0u8),
        decreases aligned(grown.len()) - buf@.len(),
    {
        buf.push(0);
    }
    assert(buf@ =~= grown + padding(grown.len()));
}

/// Header and interface part of a link message.
pub open spec fn link_head(
    order: ByteOrder,
    len: nat,
    kind: u16,
    flags: u16,
    if_index: i32,
) -> Seq<u8> {
    bytes_in(order, len, 4) + bytes_in(order, kind as nat, 2) + bytes_in(order, flags as nat, 2)
        + bytes_in(order, 1, 4) + bytes_in(order, 0, 4) + bytes_in(order, 0, 4) + bytes_in(
        order,
        unsigned(if_index) as nat,
        4,
    ) + bytes_in(order, 0, 4) + bytes_in(order, 0, 4)
}

fn push_link_head(
    buf: &mut Vec<u8>,
    order: ByteOrder,
    len: u32,
    kind: u16,
    flags: u16,
    if_index: i32,
)
    requires
        old(buf)@.len() == 0,
    ensures
        final(buf)@ == link_head(order, len as nat, kind, flags, if_index),
        final(buf)@.len() == HEADER_LEN + IFINFO_LEN,
{
    push_u32(buf, order, len);
    push_u16(buf, order, kind);
    push_u16(buf, order, flags);
    push_u32(buf, order, 1);
    push_u32(buf, order, 0);
    push_u32(buf, order, 0);
    push_u32(buf, order, to_unsigned(if_index));
    push_u32(buf, order, 0);
    push_u32(buf, order, 0);
    assert(buf@ =~= link_head(order, len as nat, kind, flags, if_index));
    proof {
        lemma_le_bytes_len(len as nat, 4);
        lemma_le_bytes_len(kind as nat, 2);
        lemma_le_bytes_len(flags as nat, 2);
        lemma_le_bytes_len(1, 4);
        lemma_le_bytes_len(0, 4);
        lemma_le_bytes_len(unsigned(if_index) as nat, 4);
    }
}

/// The request for the state of a link.
pub open spec fn getlink_message(order: ByteOrder, if_index: i32) -> Seq<u8> {
    link_head(order, 32, RTM_GETLINK, NLM_F_REQUEST, if_index)
}

/// Builds the request for the state of a link.
pub fn getlink_request(order: ByteOrder, if_index: i32) -> (r: Vec<u8>)
    ensures
        r@ == getlink_message(order, if_index),
        r@.len() == 32,
{
    let mut buf: Vec<u8> = Vec::new();
    push_link_head(&mut buf, order, 32, RTM_GETLINK, NLM_F_REQUEST, if_index);
    buf
}

/// The XDP attributes of a request: the program, or none to detach, and the mode flags.
pub open spec fn xdp_request_attrs(order: ByteOrder, prog_fd: Option<i32>, flags: u32) -> Seq<u8> {
    let fd = match prog_fd {
        Some(fd) => fd,
        None => -1i32,
    };
    let nested = with_attr(
        Seq::empty(),
        order,
        IFLA_XDP_FD,
        bytes_in(order, unsigned(fd) as nat, 4),
    );
    let all = if flags != 0 {
        with_attr(nested, order, IFLA_XDP_FLAGS, bytes_in(order, flags as nat, 4))
    } else {
        nested
    };
    with_attr(Seq::empty(), order, (IFLA_XDP + NLA_F_NESTED) as u16, all)
}

/// The request that sets or clears the program of a link, with its total length in the header.
pub open spec fn setlink_message(
    order: ByteOrder,
    if_index: i32,
    prog_fd: Option<i32>,
    flags: u32,
) -> Seq<u8> {
    let attrs = xdp_request_attrs(order, prog_fd, flags);
    link_head(
        order,
        32 + attrs.len(),
        RTM_SETLINK,
        (NLM_F_REQUEST + NLM_F_ACK) as u16,
        if_index,
    ) + attrs
}

fn word_bytes(order: ByteOrder, x: u32) -> (r: Vec<u8>)
    ensures
        r@ == bytes_in(order, x as nat, 4),
        r@.len() == 4,
{
    let mut out: Vec<u8> = Vec::new();
    push_u32(&mut out, order, x);
    proof {
        lemma_le_bytes_len(x as nat, 4);
    }
    assert(out@ =~= bytes_in(order, x as nat, 4));
    out
}

proof fn lemma_with_attr_len(buf: Seq<u8>, order: ByteOrder, kind: u16, payload: Seq<u8>)
    ensures
        with_attr(buf, order, kind, payload).len() == aligned(buf.len() + 4 + payload.len()),
{
    lemma_le_bytes_len(((ATTR_LEN + payload.len()) % 0x1_0000) as nat, 2);
    lemma_le_bytes_len(kind as nat, 2);
}

/// Builds the request that sets the program of a link, or clears it without one.
pub fn setlink_request(order: ByteOrder, if_index: i32, prog_fd: Option<i32>, flags: u32) -> (r:
    Vec<u8>)
    ensures
        r@ == setlink_message(order, if_index, prog_fd, flags),
        r@.len() == if flags != 0 {
            52int
        } else {
            44int
        },
{
    let fd: i32 = match prog_fd {
        Some(fd) => fd,
        None => -1,
    };
    let ghost fd_bytes = bytes_in(order, unsigned(fd) as nat, 4);
    let ghost flag_bytes = bytes_in(order, flags as nat, 4);
    proof {
        lemma_le_bytes_len(unsigned(fd) as nat, 4);
        lemma_le_bytes_len(flags as nat, 4);
        lemma_with_attr_len(Seq::empty(), order, IFLA_XDP_FD, fd_bytes);
        lemma_with_attr_len(
            with_attr(Seq::empty(), order, IFLA_XDP_FD, fd_bytes),
            order,
            IFLA_XDP_FLAGS,
            flag_bytes,
        );
    }
    let mut nested: Vec<u8> = Vec::new();
    push_nla_bytes(&mut nested, order, IFLA_XDP_FD, word_bytes(order, to_unsigned(fd)).as_slice());
    if flags != 0 {
        push_nla_bytes(&mut nested, order, IFLA_XDP_FLAGS, word_bytes(order, flags).as_slice());
    }
    let mut attrs: Vec<u8> = Vec::new();
    push_nla_bytes(&mut attrs, order, IFLA_XDP + NLA_F_NESTED, nested.as_slice());
    proof {
        lemma_with_attr_len(Seq::empty(), order, (IFLA_XDP + NLA_F_NESTED) as u16, nested@);
    }
    let mut buf: Vec<u8> = Vec::new();
    let total: u32 = 32 + attrs.len() as u32;
    push_link_head(&mut buf, order, total, RTM_SETLINK, NLM_F_REQUEST + NLM_F_ACK, if_index);
    append_bytes(&mut buf, attrs.as_slice());
    buf
}

/// An attribute read from a message.
pub struct Attr {
    pub kind: u16,
    pub payload: Seq<u8>,
}

/// The attributes in a buffer, up to the first that does not fit.
pub open spec fn attrs_in(order: ByteOrder, buf: Seq<u8>) -> Seq<Attr>
    decreases buf.len(),
{
    let len = value_in(order, buf.take(2));
    if buf.len() < ATTR_LEN || len < ATTR_LEN || len > buf.len() {
        Seq::empty()
    } else {
        let attr = Attr {
            kind: (value_in(order, buf.subrange(2, 4)) % NLA_TYPE_RANGE as nat) as u16,
            payload: buf.subrange(4, len as int),
        };
        if aligned(len) >= buf.len() {
            seq![attr]
        } else {
            seq![attr] + attrs_in(order, buf.skip(aligned(len) as int))
        }
    }
}

struct NlAttr<'a> {
    kind: u16,
    payload: &'a [u8],
}

impl<'a> View for NlAttr<'a> {
    type V = Attr;

    closed spec fn view(&self) -> Attr {
        Attr { kind: self.kind, payload: self.payload@ }
    }
}

/// The attributes behind a list.
spec fn attr_views<'a>(list: Seq<NlAttr<'a>>) -> Seq<Attr> {
    Seq::new(list.len(), |i: int| list[i]@)
}

fn read_u16(buf: &[u8], at: usize, order: ByteOrder) -> (r: u16)
    requires
        at + 2 <= buf@.len(),
    ensures
        r == value_in(order, buf@.subrange(at as int, at + 2)),
{
    let ghost b = buf@.subrange(at as int, at + 2);
    proof {
        reveal_with_fuel(crate::endian::le_value, 3);
        assert(b.drop_first()[0] == b[1]);
        assert(b.reverse()[0] == b[1] && b.reverse().drop_first()[0] == b[0]);
    }
    match order {
        ByteOrder::Little => buf[at] as u16 + 256 * buf[at + 1] as u16,
        ByteOrder::Big => buf[at + 1] as u16 + 256 * buf[at] as u16,
    }
}

fn read_u32(buf: &[u8], at: usize, order: ByteOrder) -> (r: u32)
    requires
        at + 4 <= buf@.len(),
    ensures
        r == value_in(order, buf@.subrange(at as int, at + 4)),
{
    let ghost b = buf@.subrange(at as int, at + 4);
    proof {
        reveal_with_fuel(crate::endian::le_value, 5);
        assert(b.drop_first()[0] == b[1]);
        assert(b.drop_first().drop_first()[0] == b[2]);
        assert(b.drop_first().drop_first().drop_first()[0] == b[3]);
        let c = b.reverse();
        assert(c[0] == b[3] && c.drop_first()[0] == b[2]);
        assert(c.drop_first().drop_first()[0] == b[1]);
        assert(c.drop_first().drop_first().drop_first()[0] == b[0]);
    }
    let (b0, b1, b2, b3) = (
        buf[at] as u32,
        buf[at + 1] as u32,
        buf[at + 2] as u32,
        buf[at + 3] as u32,
    );
    match order {
        ByteOrder::Little => b0 + 256 * b1 + 65536 * b2 + 16777216 * b3,
        ByteOrder::Big => b3 + 256 * b2 + 65536 * b1 + 16777216 * b0,
    }
}

fn read_attrs<'a>(order: ByteOrder, buf: &'a [u8]) -> (r: Vec<NlAttr<'a>>)
    ensures
        attr_views(r@) == attrs_in(order, buf@),
{
    let n: usize = buf.len();
    let mut out: Vec<NlAttr<'a>> = Vec::new();
    let mut off: usize = 0;
    assert(buf@.skip(0) =~= buf@);
    assert(attr_views(out@) + attrs_in(order, buf@) =~= attrs_in(order, buf@));
    while n - off >= ATTR_LEN
        invariant
            n == buf@.len(),
            off <= n,
            attr_views(out@) + attrs_in(order, buf@.skip(off as int)) == attrs_in(order, buf@),
        decreases n - off,
    {
        let ghost rest = buf@.skip(off as int);
        let ghost before = attr_views(out@);
        assert(rest.take(2) =~= buf@.subrange(off as int, off + 2));
        assert(rest.subrange(2, 4) =~= buf@.subrange(off + 2, off + 4));
        let len: usize = read_u16(buf, off, order) as usize;
        if len < ATTR_LEN || len > n - off {
            assert(before + attrs_in(order, rest) =~= before);
            return out;
        }
        let kind: u16 = read_u16(buf, off + 2, order) % NLA_TYPE_RANGE;
        let payload: &'a [u8] = slice_subrange(buf, off + ATTR_LEN, off + len);
        assert(payload@ =~= rest.subrange(4, len as int));
        let attr = NlAttr { kind, payload };
        let ghost a = attr@;
        out.push(attr);
        assert(attr_views(out@) =~= before.push(a));
        let step: usize = nla_align(len);
        if step >= n - off {
            assert(attr_views(out@) =~= before + seq![a]);
            return out;
        }
        assert(rest.skip(step as int) =~= buf@.skip(off + step));
        assert(attr_views(out@) + attrs_in(order, buf@.skip(off + step)) =~= before + (seq![a]
            + attrs_in(order, buf@.skip(off + step))));
        off = off + step;
    }
    assert(attr_views(out@) + attrs_in(order, buf@.skip(off as int)) =~= attr_views(out@));
    out
}

/// The last 32-bit value of an attribute type, or zero.
pub open spec fn last_word(order: ByteOrder, list: Seq<Attr>, kind: u16) -> u32
    decreases list.len(),
{
    if list.len() == 0 {
        0
    } else if list.last().kind == kind && list.last().payload.len() >= 4 {
        value_in(order, list.last().payload.take(4)) as u32
    } else {
        last_word(order, list.drop_last(), kind)
    }
}

/// The last first byte of an attribute type, or zero.
pub open spec fn last_byte(list: Seq<Attr>, kind: u16) -> u8
    decreases list.len(),
{
    if list.len() == 0 {
        0
    } else if list.last().kind == kind && list.last().payload.len() > 0 {
        list.last().payload[0]
    } else {
        last_byte(list.drop_last(), kind)
    }
}

/// The program attached, by nested XDP attributes: the first id that is not zero, unless nothing
/// is attached.
pub open spec fn attached_program(order: ByteOrder, buf: Seq<u8>) -> Option<u32> {
    let list = attrs_in(order, buf);
    let prog = last_word(order, list, IFLA_XDP_PROG_ID);
    let drv = last_word(order, list, IFLA_XDP_DRV_PROG_ID);
    let skb = last_word(order, list, IFLA_XDP_SKB_PROG_ID);
    let hw = last_word(order, list, IFLA_XDP_HW_PROG_ID);
    if last_byte(list, IFLA_XDP_ATTACHED) == XDP_ATTACHED_NONE {
        None
    } else if prog != 0 {
        Some(prog)
    } else if drv != 0 {
        Some(drv)
    } else if skb != 0 {
        Some(skb)
    } else if hw != 0 {
        Some(hw)
    } else {
        None
    }
}

/// Reads the attached program out of nested XDP attributes.
pub fn parse_xdp_nested(order: ByteOrder, attrs: &[u8]) -> (r: Option<u32>)
    ensures
        r == attached_program(order, attrs@),
{
    let list = read_attrs(order, attrs);
    let ghost all = attr_views(list@);
    let mut attached: u8 = XDP_ATTACHED_NONE;
    let mut prog_id: u32 = 0;
    let mut drv_id: u32 = 0;
    let mut skb_id: u32 = 0;
    let mut hw_id: u32 = 0;
    let n: usize = list.len();
    for i in 0..n
        invariant
            n == list@.len(),
            all == attr_views(list@),
            attached == last_byte(all.take(i as int), IFLA_XDP_ATTACHED),
            prog_id == last_word(order, all.take(i as int), IFLA_XDP_PROG_ID),
            drv_id == last_word(order, all.take(i as int), IFLA_XDP_DRV_PROG_ID),
            skb_id == last_word(order, all.take(i as int), IFLA_XDP_SKB_PROG_ID),
            hw_id == last_word(order, all.take(i as int), IFLA_XDP_HW_PROG_ID),
    {
        assert(all.take(i + 1).drop_last() =~= all.take(i as int));
        assert(all.take(i + 1).last() == list@[i as int]@);
        let kind: u16 = list[i].kind;
        let payload: &[u8] = list[i].payload;
        if kind == IFLA_XDP_ATTACHED {
            if payload.len() > 0 {
                attached = payload[0];
            }
        } else if payload.len() >= 4 {
            assert(payload@.take(4) =~= payload@.subrange(0, 4));
            let word: u32 = read_u32(payload, 0, order);
            if kind == IFLA_XDP_PROG_ID {
                prog_id = word;
            } else if kind == IFLA_XDP_DRV_PROG_ID {
                drv_id = word;
            } else if kind == IFLA_XDP_SKB_PROG_ID {
                skb_id = word;
            } else if kind == IFLA_XDP_HW_PROG_ID {
                hw_id = word;
            }
        }
    }
    assert(all.take(n as int) =~= all);
    if attached == XDP_ATTACHED_NONE {
        None
    } else if prog_id != 0 {
        Some(prog_id)
    } else if drv_id != 0 {
        Some(drv_id)
    } else if skb_id != 0 {
        Some(skb_id)
    } else if hw_id != 0 {
        Some(hw_id)
    } else {
        None
    }
}

/// The payload of the first attribute of a type.
pub open spec fn first_payload(list: Seq<Attr>, kind: u16) -> Option<Seq<u8>>
    decreases list.len(),
{
    if list.len() == 0 {
        None
    } else if list[0].kind == kind {
        Some(list[0].payload)
    } else {
        first_payload(list.drop_first(), kind)
    }
}

/// The program attached to a link, by the attributes of its link message.
pub open spec fn link_program(order: ByteOrder, attrs: Seq<u8>) -> Option<u32> {
    match first_payload(attrs_in(order, attrs), IFLA_XDP) {
        Some(nested) => attached_program(order, nested),
        None => None,
    }
}

/// Reads the attached program out of the attributes of a link message.
pub fn parse_xdp_prog_id(order: ByteOrder, attrs: &[u8]) -> (r: Option<u32>)
    ensures
        r == link_program(order, attrs@),
{
    let list = read_attrs(order, attrs);
    let ghost all = attr_views(list@);
    let n: usize = list.len();
    let mut i: usize = 0;
    assert(all.skip(0) =~= all);
    while i < n
        invariant
            n == list@.len(),
            i <= n,
            all == attr_views(list@),
            all == attrs_in(order, attrs@),
            first_payload(all, IFLA_XDP) == first_payload(all.skip(i as int), IFLA_XDP),
        decreases n - i,
    {
        assert(all.skip(i as int)[0] == list@[i as int]@);
        assert(all.skip(i as int).drop_first() =~= all.skip(i + 1));
        if list[i].kind == IFLA_XDP {
            return parse_xdp_nested(order, list[i].payload);
        }
        i = i + 1;
    }
    None
}

/// The signed number at a place of a buffer; bytes beyond its end count as zero.
pub open spec fn signed_at(order: ByteOrder, buf: Seq<u8>, at: int) -> i32 {
    as_signed(
        value_in(
            order,
            Seq::new(
                4,
                |i: int|
                    if at + i < buf.len() {
                        buf[at + i]
                    } else {
                        0u8
                    },
            ),
        ),
    )
}

fn read_i32_padded(buf: &[u8], at: usize, order: ByteOrder) -> (r: i32)
    requires
        at + 4 <= usize::MAX,
    ensures
        r == signed_at(order, buf@, at as int),
{
    let mut word: Vec<u8> = Vec::new();
    for i in 0..4usize
        invariant
            at + 4 <= usize::MAX,
            word@.len() == i,
            forall|j: int|
                0 <= j < i ==> #[trigger] word@[j] == (if at + j < buf@.len() {
                    buf@[at + j]
                } else {
                    0u8
                }),
    {
        if at + i < buf.len() {
            word.push(buf[at + i]);
        } else {
            word.push(0);
        }
    }
    assert(word@.subrange(0, 4) =~= Seq::new(
        4,
        |i: int|
            if at + i < buf@.len() {
                buf@[at + i]
            } else {
                0u8
            },
    ));
    to_signed(read_u32(word.as_slice(), 0, order))
}

/// What the reply to a setting request means: an error code, or success.
pub open spec fn ack(order: ByteOrder, reply: Seq<u8>) -> Result<(), i32> {
    if reply.len() >= HEADER_LEN && value_in(order, reply.subrange(4, 6)) == NLMSG_ERROR
        && signed_at(order, reply, 16) != 0 {
        Err(signed_at(order, reply, 16))
    } else {
        Ok(())
    }
}

/// Reads the reply to a setting request.
pub fn parse_ack(order: ByteOrder, reply: &[u8]) -> (r: Result<(), i32>)
    ensures
        r == ack(order, reply@),
{
    if reply.len() >= HEADER_LEN && read_u16(reply, 4, order) == NLMSG_ERROR {
        let error: i32 = read_i32_padded(reply, HEADER_LEN, order);
        if error != 0 {
            return Err(error);
        }
    }
    Ok(())
}

/// Where the message behind one of `len` bytes starts, if there is room for any.
fn next_message(len: usize, room: usize) -> (r: Option<usize>)
    requires
        len <= room,
    ensures
        match r {
            Some(at) => at == aligned(len as nat) && at < room,
            None => aligned(len as nat) >= room,
        },
{
    let pad: usize = (4 - len % 4) % 4;
    if pad >= room - len {
        None
    } else {
        Some(len + pad)
    }
}

/// What the reply to a query says about the attached program: messages are read in order until one
/// describes the link, reports an error or ends the reply.
pub open spec fn link_reply(order: ByteOrder, reply: Seq<u8>) -> Result<Option<u32>, i32>
    decreases reply.len(),
{
    let len = value_in(order, reply.take(4));
    let kind = value_in(order, reply.subrange(4, 6));
    if reply.len() < HEADER_LEN || len < HEADER_LEN || len > reply.len() {
        Ok(None)
    } else if kind == NLMSG_DONE {
        Ok(None)
    } else if kind == NLMSG_ERROR && signed_at(order, reply, 16) != 0 {
        Err(signed_at(order, reply, 16))
    } else if kind == RTM_NEWLINK && len >= HEADER_LEN + IFINFO_LEN {
        Ok(link_program(order, reply.subrange(32, len as int)))
    } else if aligned(len) >= reply.len() {
        Ok(None)
    } else {
        link_reply(order, reply.skip(aligned(len) as int))
    }
}

/// Reads the reply to a query.
pub fn parse_link_reply(order: ByteOrder, reply: &[u8]) -> (r: Result<Option<u32>, i32>)
    ensures
        r == link_reply(order, reply@),
{
    let n: usize = reply.len();
    let mut off: usize = 0;
    assert(reply@.skip(0) =~= reply@);
    while n - off >= HEADER_LEN
        invariant
            n == reply@.len(),
            off <= n,
            link_reply(order, reply@) == link_reply(order, reply@.skip(off as int)),
        decreases n - off,
    {
        let rest: &[u8] = slice_subrange(reply, off, n);
        assert(rest@ =~= reply@.skip(off as int));
        assert(rest@.take(4) =~= rest@.subrange(0, 4));
        let len: usize = read_u32(rest, 0, order) as usize;
        if len < HEADER_LEN || len > n - off {
            return Ok(None);
        }
        let kind: u16 = read_u16(rest, 4, order);
        if kind == NLMSG_DONE {
            return Ok(None);
        }
        if kind == NLMSG_ERROR {
            let error: i32 = read_i32_padded(rest, HEADER_LEN, order);
            if error != 0 {
                return Err(error);
            }
        } else if kind == RTM_NEWLINK && len >= HEADER_LEN + IFINFO_LEN {
            return Ok(
                parse_xdp_prog_id(
                    order,
                    slice_subrange(rest, HEADER_LEN + IFINFO_LEN, len),
                ),
            );
        }
        let step: usize = match next_message(len, n - off) {
            Some(s) => s,
            None => {
                return Ok(None);
            },
        };
        assert(rest@.skip(step as int) =~= reply@.skip(off + step));
        off = off + step;
    }
    Ok(None)
}

/// An attribute that was written is read back as it was, together with what follows it.
pub proof fn attribute_round_trips(order: ByteOrder, kind: u16, payload: Seq<u8>, behind: Seq<u8>)
    requires
        kind < NLA_TYPE_RANGE,
        payload.len() + ATTR_LEN < 0x1_0000,
    ensures
        attrs_in(order, with_attr(Seq::empty(), order, kind, payload) + behind) == seq![
            Attr { kind, payload },
        ] + attrs_in(order, behind),
{
    let len = (ATTR_LEN + payload.len()) as nat;
    let written = with_attr(Seq::empty(), order, kind, payload);
    let buf = written + behind;
    reveal_with_fuel(byte_range, 3);
    crate::endian::byte_order_round_trips(order, len, 2);
    crate::endian::byte_order_round_trips(order, kind as nat, 2);
    lemma_with_attr_len(Seq::empty(), order, kind, payload);
    assert(buf.take(2) =~= bytes_in(order, len, 2));
    assert(buf.subrange(2, 4) =~= bytes_in(order, kind as nat, 2));
    assert(buf.subrange(4, len as int) =~= payload);
    assert(aligned(len) == written.len());
    if behind.len() > 0 {
        assert(buf.skip(aligned(len) as int) =~= behind);
    } else {
        assert(seq![Attr { kind, payload }] + attrs_in(order, behind) =~= seq![
            Attr { kind, payload },
        ]);
    }
}

} // verus!
